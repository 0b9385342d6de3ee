//! What holds of a whole run of the coordinator, however the workers' requests and the
//! timeouts happen to come in.
use crate::coordinator::{Closing, Coordinator, Refusal, Submission};
use crate::exact::chain;
use crate::layers::is_full;
use crate::outer::{
    all_sent_in_full, law_step_number_by_number, outer_update, sent_numbers, views,
};
use crate::params::{archived, ParamMap};
use crate::tensor::{
    count_bits, number, number_difference, number_reciprocal, number_scaled, number_sum, ElementType,
};
use vstd::prelude::*;

verus! {

/// Something that happens to the coordinator.
pub enum Event<W> {
    /// A worker on `round` submits `local`.
    Request { round: u64, local: ParamMap, waiter: W, outcome: Result<Submission, Refusal> },
    /// Someone tries to close a round.
    Attempt { expected_round: u64, min_workers: usize, closing: Closing<W> },
    /// The timeout of a round has passed.
    Timeout { timed_round: u64, end: Closing<W> },
}

impl<W> Event<W> {
    /// A submission is accepted for `round`.
    pub open spec fn is_accepted_for(self, round: u64) -> bool {
        self matches Event::Request { outcome, .. } && outcome matches Ok(s) && s.round == round
    }

    /// How the attempt to close a round ended, where this is one.
    pub open spec fn result(self) -> Option<Closing<W>> {
        match self {
            Event::Request { .. } => None,
            Event::Attempt { closing, .. } => Some(closing),
            Event::Timeout { end, .. } => Some(end),
        }
    }

    /// A round is closed.
    pub open spec fn is_closing(self) -> bool {
        self.result() matches Some(closing) && closing is Closed
    }

    /// A round fails and its waiters are dropped.
    pub open spec fn is_failure(self) -> bool {
        self.result() matches Some(closing) && (closing is StepFailed || closing is SerializeFailed)
    }

    /// The round's timeout passes, and the round fails.
    pub open spec fn is_failed_timeout(self) -> bool {
        self is Timeout && self.is_failure()
    }

    /// A submission is accepted and the round's timeout has to be started.
    pub open spec fn starts_timer(self) -> bool {
        self matches Event::Request { outcome, .. } && outcome matches Ok(s) && s.spawn_timer
    }
}

/// A run: the states that the coordinator goes through, and what happens between one and
/// the next.
pub struct History<W> {
    pub states: Seq<Coordinator<W>>,
    pub events: Seq<Event<W>>,
}

impl<W> History<W> {
    /// Event `i` leads from state `i` to the next.
    pub open spec fn leads_on(self, i: int) -> bool {
        match self.events[i] {
            Event::Request { round, local, waiter, outcome } => self.states[i].submits(
                self.states[i + 1],
                round,
                local,
                waiter,
                outcome,
            ),
            Event::Attempt { expected_round, min_workers, closing } => self.states[i].closes(
                self.states[i + 1],
                expected_round,
                min_workers,
                closing,
            ),
            Event::Timeout { timed_round, end } => self.states[i].times_out(
                self.states[i + 1],
                timed_round,
                end,
            ),
        }
    }

    /// Every event leads from one state to the next.
    pub open spec fn wf(self) -> bool {
        &&& self.states.len() == self.events.len() + 1
        &&& forall|i: int| 0 <= i < self.events.len() ==> #[trigger] self.leads_on(i)
    }

    /// The round that is being collected before event `i`.
    pub open spec fn round(self, i: int) -> u64 {
        self.states[i].current_round()
    }

    /// Event `j` closes a round and hands back the waiter of the submission in event `i`.
    pub open spec fn answers(self, i: int, j: int) -> bool {
        &&& 0 <= i < j < self.events.len()
        &&& self.events[i].is_accepted_for(self.round(j))
        &&& self.events[j].is_closing()
        &&& (self.events[j].result()->Some_0)->waiters@.contains(self.events[i]->waiter)
    }
}

/// The round number never falls.
pub proof fn law_rounds_never_fall<W>(h: History<W>, i: int, j: int)
    requires
        h.wf(),
        0 <= i <= j <= h.events.len(),
    ensures
        h.round(i) <= h.round(j),
    decreases j - i,
{
    if i < j {
        law_rounds_never_fall(h, i, j - 1);
        assert(h.leads_on(j - 1));
    }
}

/// A timeout that has been started for a round stays started for as long as the round
/// lasts and the timeout does not fail itself.
proof fn lemma_timer_stays<W>(h: History<W>, i: int, j: int)
    requires
        h.wf(),
        0 <= i <= j <= h.events.len(),
        h.states[i].timer_spawned(),
        h.round(i) == h.round(j),
        forall|k: int| i <= k < j ==> !(#[trigger] h.events[k]).is_failed_timeout(),
    ensures
        h.states[j].timer_spawned(),
    decreases j - i,
{
    if i < j {
        law_rounds_never_fall(h, i, j - 1);
        law_rounds_never_fall(h, j - 1, j);
        lemma_timer_stays(h, i, j - 1);
        assert(h.leads_on(j - 1));
        assert(!h.events[j - 1].is_failed_timeout());
    }
}

/// At most one timeout is started per round, unless it has passed and failed itself: of two
/// submissions that are accepted for the same round, the later one starts none, whatever else
/// happens in between. So no round ever has two timeouts running.
pub proof fn law_at_most_one_timer_per_round<W>(h: History<W>, i: int, j: int, round: u64)
    requires
        h.wf(),
        0 <= i < j < h.events.len(),
        h.events[i].is_accepted_for(round),
        h.events[j].is_accepted_for(round),
        forall|k: int| i < k < j ==> !(#[trigger] h.events[k]).is_failed_timeout(),
    ensures
        !h.events[j].starts_timer(),
{
    assert(h.leads_on(i));
    assert(h.leads_on(j));
    lemma_timer_stays(h, i + 1, j);
}

/// Where a timeout has been started in a run that began with none, a submission has been
/// accepted for the round.
proof fn lemma_timer_has_a_cause<W>(h: History<W>, i: int)
    requires
        h.wf(),
        0 <= i <= h.events.len(),
        !h.states[0].timer_spawned(),
        h.states[i].timer_spawned(),
    ensures
        exists|k: int| 0 <= k < i && #[trigger] h.events[k].is_accepted_for(h.round(i)),
    decreases i,
{
    assert(i > 0);
    assert(h.leads_on(i - 1));
    if h.events[i - 1].is_accepted_for(h.round(i)) {
    } else {
        lemma_timer_has_a_cause(h, i - 1);
        let k = choose|k: int| 0 <= k < i - 1 && #[trigger] h.events[k].is_accepted_for(h.round(i - 1));
        assert(h.events[k].is_accepted_for(h.round(i)));
    }
}

/// The timeout of a round is started by the first submission that is accepted for it.
pub proof fn law_first_submission_starts_the_timer<W>(h: History<W>, i: int, round: u64)
    requires
        h.wf(),
        !h.states[0].timer_spawned(),
        0 <= i < h.events.len(),
        h.events[i].is_accepted_for(round),
        forall|k: int| 0 <= k < i ==> !(#[trigger] h.events[k]).is_accepted_for(round),
    ensures
        h.events[i].starts_timer(),
{
    assert(h.leads_on(i));
    if h.states[i].timer_spawned() {
        lemma_timer_has_a_cause(h, i);
    }
}

/// No two events close the same round.
pub proof fn law_no_round_closes_twice<W>(h: History<W>, i: int, j: int)
    requires
        h.wf(),
        0 <= i < j < h.events.len(),
        h.events[i].is_closing(),
        h.events[j].is_closing(),
    ensures
        h.round(i) < h.round(j),
{
    assert(h.leads_on(i));
    law_rounds_never_fall(h, i + 1, j);
}

/// The waiter of an accepted submission waits until its round closes or fails.
proof fn lemma_waiter_stays<W>(h: History<W>, i: int, j: int)
    requires
        h.wf(),
        0 <= i < j < h.events.len(),
        h.events[i].is_accepted_for(h.round(j)),
        forall|k: int| i < k < j ==> !(#[trigger] h.events[k]).is_failure(),
    ensures
        h.states[j].waiters().contains(h.events[i]->waiter),
    decreases j - i,
{
    let waiter = h.events[i]->waiter;
    assert(h.leads_on(i));
    if j == i + 1 {
        let waiters = h.states[j].waiters();
        assert(waiters[waiters.len() - 1] == waiter);
    } else {
        law_rounds_never_fall(h, i + 1, j - 1);
        law_rounds_never_fall(h, j - 1, j);
        lemma_waiter_stays(h, i, j - 1);
        assert(h.leads_on(j - 1));
        let before = h.states[j - 1].waiters();
        let after = h.states[j].waiters();
        let k = before.index_of(waiter);
        assert(!h.events[j - 1].is_failure());
        assert(after[k] == waiter);
    }
}

/// When a round closes, every submission that was accepted for it is answered, unless the
/// round had failed in between.
pub proof fn law_every_submission_is_answered<W>(h: History<W>, i: int, j: int)
    requires
        h.wf(),
        0 <= i < j < h.events.len(),
        h.events[i].is_accepted_for(h.round(j)),
        h.events[j].is_closing(),
        forall|k: int| i < k < j ==> !(#[trigger] h.events[k]).is_failure(),
    ensures
        h.answers(i, j),
{
    lemma_waiter_stays(h, i, j);
    assert(h.leads_on(j));
}

/// Everyone who took part in a round leaves it with the same parameters and the same next
/// round: two submissions for the same round that are answered are answered alike, however
/// many others came before, between or after them.
pub proof fn law_members_of_a_round_leave_alike<W>(
    h: History<W>,
    a: int,
    b: int,
    a_closing: int,
    b_closing: int,
    round: u64,
)
    requires
        h.wf(),
        h.answers(a, a_closing),
        h.answers(b, b_closing),
        h.events[a].is_accepted_for(round),
        h.events[b].is_accepted_for(round),
    ensures
        (h.events[a_closing].result()->Some_0)->params@ == (
        h.events[b_closing].result()->Some_0)->params@,
        (h.events[a_closing].result()->Some_0)->new_round == round + 1,
        (h.events[b_closing].result()->Some_0)->new_round == round + 1,
{
    assert(h.leads_on(a_closing));
    assert(h.leads_on(b_closing));
    if a_closing < b_closing {
        law_no_round_closes_twice(h, a_closing, b_closing);
    }
    if b_closing < a_closing {
        law_no_round_closes_twice(h, b_closing, a_closing);
    }
}

impl<W> History<W> {
    /// What has been collected before event `i`, told by the events alone: every parameter set
    /// that was accepted since a round was last closed or failed, in order.
    pub open spec fn collected(self, i: int) -> Seq<ParamMap>
        decreases i,
    {
        if i <= 0 {
            Seq::empty()
        } else {
            match self.events[i - 1] {
                Event::Request { local, outcome, .. } => if outcome is Ok {
                    self.collected(i - 1).push(local)
                } else {
                    self.collected(i - 1)
                },
                _ => if self.events[i - 1].is_closing() || self.events[i - 1].is_failure() {
                    Seq::empty()
                } else {
                    self.collected(i - 1)
                },
            }
        }
    }

    /// A run that begins with nothing submitted.
    pub open spec fn begins_empty(self) -> bool {
        self.states[0].pending() == Seq::<ParamMap>::empty()
    }
}

/// Nothing that was accepted is lost and nothing else is added: the coordinator holds what
/// has been collected.
pub proof fn law_every_submission_is_kept<W>(h: History<W>, i: int)
    requires
        h.wf(),
        h.begins_empty(),
        0 <= i <= h.events.len(),
    ensures
        h.states[i].pending() == h.collected(i),
    decreases i,
{
    if i > 0 {
        law_every_submission_is_kept(h, i - 1);
        assert(h.leads_on(i - 1));
    }
}

/// Submissions are counted: each is told how many there are with it, and that all workers
/// are in just when there are as many as are expected.
pub proof fn law_submissions_are_counted<W>(h: History<W>, i: int, submission: Submission)
    requires
        h.wf(),
        h.begins_empty(),
        0 <= i < h.events.len(),
        h.events[i] is Request,
        h.events[i]->outcome == Ok::<Submission, Refusal>(submission),
    ensures
        submission.round == h.round(i),
        submission.submitted == h.collected(i).len() + 1,
        submission.all_in <==> h.collected(i).len() + 1 == h.states[i].expected_workers(),
        h.collected(i + 1) == h.collected(i).push(h.events[i]->local),
{
    law_every_submission_is_kept(h, i);
    assert(h.leads_on(i));
}

/// A submission is accepted just when its worker is on the coordinator's round; one that is
/// refused changes nothing.
pub proof fn law_submissions_of_the_round_are_accepted<W>(h: History<W>, i: int)
    requires
        h.wf(),
        0 <= i < h.events.len(),
        h.events[i] is Request,
    ensures
        h.events[i]->outcome is Ok <==> h.events[i]->round == h.round(i),
        h.events[i]->outcome is Err ==> h.states[i + 1] == h.states[i],
        h.states[i + 1].global() == h.states[i].global(),
        h.states[i + 1].outer() == h.states[i].outer(),
        h.round(i + 1) == h.round(i),
{
    assert(h.leads_on(i));
}

/// Every accepted submission counts, the first as much as the last: closing a round steps the
/// global parameters over all parameter sets that were collected, and reports as many.
pub proof fn law_closing_steps_over_every_submission<W>(h: History<W>, i: int)
    requires
        h.wf(),
        h.begins_empty(),
        0 <= i < h.events.len(),
        h.events[i].is_closing(),
    ensures
        h.states[i].outer().has_stepped(
            h.states[i].global().entries(),
            h.states[i + 1].outer(),
            h.states[i + 1].global().entries(),
            views(h.collected(i)),
            h.states[i].global().entries().len() as int,
        ),
        (h.events[i].result()->Some_0)->Closed_submitted == h.collected(i).len(),
        h.collected(i).len() > 0,
        views(h.collected(i)).len() == h.collected(i).len(),
        forall|w: int|
            0 <= w < h.collected(i).len() ==> views(h.collected(i))[w] == (
            #[trigger] h.collected(i)[w])@,
        h.round(i + 1) == h.round(i) + 1,
        h.collected(i + 1).len() == 0,
{
    law_every_submission_is_kept(h, i);
    assert(h.leads_on(i));
}

/// A round whose outer step fails was stepped over all parameter sets that were collected,
/// too.
pub proof fn law_failed_step_was_over_every_submission<W>(h: History<W>, i: int)
    requires
        h.wf(),
        h.begins_empty(),
        0 <= i < h.events.len(),
        h.events[i].result() is Some,
        h.events[i].result()->Some_0 is StepFailed,
    ensures
        h.states[i].outer().stops(
            h.states[i].global(),
            h.states[i + 1].outer(),
            h.states[i + 1].global(),
            views(h.collected(i)),
            (h.events[i].result()->Some_0)->error,
        ),
        h.round(i + 1) == h.round(i),
        h.collected(i + 1).len() == 0,
{
    law_every_submission_is_kept(h, i);
    assert(h.leads_on(i));
}

/// Closing a round, number by number: each number of each global parameter moves against the
/// outer update over what every collected submission holds for it.
pub proof fn law_closing_number_by_number<W>(h: History<W>, i: int, p: int, e: int)
    requires
        h.wf(),
        h.begins_empty(),
        0 <= i < h.events.len(),
        h.events[i].is_closing(),
        0 <= p < h.states[i].global().entries().len(),
        is_full(h.states[i].global().entries()[p].1),
        is_full(h.states[i].outer().momentum()[h.states[i].global().entries()[p].0]),
        all_sent_in_full(views(h.collected(i)), h.states[i].global().entries()[p].0),
        0 <= e < h.states[i].global().entries()[p].1.bits.len(),
    ensures
        ({
            let (name, old) = h.states[i].global().entries()[p];
            let new = h.states[i + 1].global().entries()[p].1;
            let m = h.states[i].outer().momentum()[name];
            let element = old.element;
            let locals = views(h.collected(i));
            let rate = number(ElementType::F64, h.states[i].outer().lr());
            let decay = number(ElementType::F64, h.states[i].outer().mu());
            let theta = number(element, old.bits[e]);
            let mean = number_scaled(
                locals[0][name].element,
                chain(locals[0][name].element, sent_numbers(locals, name, e)),
                number(
                    ElementType::F64,
                    number_reciprocal(ElementType::F64, count_bits(h.collected(i).len() as usize)),
                ),
            );
            let gradient = number_difference(element, theta, mean);
            let next_m = number_sum(
                m.element,
                number_scaled(m.element, number(m.element, m.bits[e]), decay),
                gradient,
            );
            let ahead = number_sum(element, gradient, number_scaled(m.element, next_m, decay));
            &&& sent_numbers(locals, name, e).len() == h.collected(i).len()
            &&& number(element, new.bits[e]) == number_difference(
                element,
                theta,
                number_scaled(element, ahead, rate),
            )
            &&& number(m.element, h.states[i + 1].outer().momentum()[name].bits[e]) == next_m
        }),
{
    law_closing_steps_over_every_submission(h, i);
    law_step_number_by_number(
        h.states[i].outer(),
        h.states[i].global().entries(),
        h.states[i + 1].outer(),
        h.states[i + 1].global().entries(),
        views(h.collected(i)),
        p,
        e,
    );
}

/// Which attempts to close a round come to nothing: those for another round than the current
/// one, and those that ask for more submissions than have been collected. They change
/// nothing, and no others are turned away.
pub proof fn law_which_attempts_are_turned_away<W>(h: History<W>, i: int)
    requires
        h.wf(),
        h.begins_empty(),
        0 <= i < h.events.len(),
        !(h.events[i] is Request),
    ensures
        ({
            let (round, needed) = match h.events[i] {
                Event::Attempt { expected_round, min_workers, .. } => (expected_round, min_workers),
                Event::Timeout { timed_round, .. } => (timed_round, h.states[i].timeout_workers()),
                Event::Request { round, .. } => (round, 0),
            };
            let closing = h.events[i].result()->Some_0;
            &&& closing is Stale <==> round != h.round(i)
            &&& closing is TooFew <==> round == h.round(i) && h.collected(i).len() < needed
            &&& closing is Stale || closing is TooFew ==> h.states[i + 1] == h.states[i]
            &&& closing is TooFew ==> closing->TooFew_submitted == h.collected(i).len()
        }),
{
    law_every_submission_is_kept(h, i);
    assert(h.leads_on(i));
}

/// A sound round closes: where every global parameter can be stepped over what has been
/// collected, an attempt that is not turned away does not fail in its step, and it closes the
/// round wherever the new parameters can be archived.
pub proof fn law_sound_round_closes<W>(h: History<W>, i: int)
    requires
        h.wf(),
        h.begins_empty(),
        0 <= i < h.events.len(),
        h.events[i].result() is Some,
        !(h.events[i].result()->Some_0 is Stale),
        !(h.events[i].result()->Some_0 is TooFew),
        h.collected(i).len() > 0,
        forall|p: int|
            0 <= p < h.states[i].global().entries().len() ==> outer_update(
                (#[trigger] h.states[i].global().entries()[p]).1,
                h.states[i].outer().momentum()[h.states[i].global().entries()[p].0],
                views(h.collected(i)),
                h.states[i].global().entries()[p].0,
                h.states[i].outer().lr(),
                h.states[i].outer().mu(),
            ) is Ok,
        archived(h.states[i + 1].global()@) is Some,
    ensures
        h.events[i].is_closing(),
{
    law_every_submission_is_kept(h, i);
    assert(h.leads_on(i));
    if h.events[i].result()->Some_0 is StepFailed {
        law_failed_step_was_over_every_submission(h, i);
        let error = (h.events[i].result()->Some_0)->error;
        let before = h.states[i];
        let after = h.states[i + 1];
        let k = choose|k: int|
            0 <= k < before.global().entries().len() && #[trigger] before.outer().has_stepped(
                before.global().entries(),
                after.outer(),
                after.global().entries(),
                views(h.collected(i)),
                k,
            ) && before.outer().fails_on(
                before.global().entries(),
                views(h.collected(i)),
                k,
                error,
            );
        assert(outer_update(
            before.global().entries()[k].1,
            before.outer().momentum()[before.global().entries()[k].0],
            views(h.collected(i)),
            before.global().entries()[k].0,
            before.outer().lr(),
            before.outer().mu(),
        ) is Ok);
    }
}

/// Where the new parameters cannot be archived, the step over all parameter sets that were
/// collected has been taken, and the round is collected again.
pub proof fn law_step_stays_where_archiving_fails<W>(h: History<W>, i: int)
    requires
        h.wf(),
        h.begins_empty(),
        0 <= i < h.events.len(),
        h.events[i].result() is Some,
        h.events[i].result()->Some_0 is SerializeFailed,
    ensures
        h.states[i].outer().has_stepped(
            h.states[i].global().entries(),
            h.states[i + 1].outer(),
            h.states[i + 1].global().entries(),
            views(h.collected(i)),
            h.states[i].global().entries().len() as int,
        ),
        archived(h.states[i + 1].global()@) is None,
        h.collected(i).len() > 0,
        h.round(i + 1) == h.round(i),
        h.collected(i + 1).len() == 0,
{
    law_every_submission_is_kept(h, i);
    assert(h.leads_on(i));
}

/// Those who wait are told by the events alone: everyone whose submission was accepted since a
/// round was last closed or failed, in order.
pub open spec fn waiting<W>(h: History<W>, i: int) -> Seq<W>
    decreases i,
{
    if i <= 0 {
        Seq::empty()
    } else {
        match h.events[i - 1] {
            Event::Request { waiter, outcome, .. } => if outcome is Ok {
                waiting(h, i - 1).push(waiter)
            } else {
                waiting(h, i - 1)
            },
            _ => if h.events[i - 1].is_closing() || h.events[i - 1].is_failure() {
                Seq::empty()
            } else {
                waiting(h, i - 1)
            },
        }
    }
}

/// Exactly those who wait are answered: a closing hands back the waiters of all submissions
/// that were accepted since the last, each once and in order, with the archive of the new
/// parameters and the number of the next round.
pub proof fn law_closing_answers_exactly_the_waiting<W>(h: History<W>, i: int)
    requires
        h.wf(),
        h.states[0].waiters() == Seq::<W>::empty(),
        0 <= i < h.events.len(),
        h.events[i].is_closing(),
    ensures
        (h.events[i].result()->Some_0)->waiters@ == waiting(h, i),
        archived(h.states[i + 1].global()@) == Some(
            (h.events[i].result()->Some_0)->params@,
        ),
        (h.events[i].result()->Some_0)->new_round == h.round(i) + 1,
        h.round(i + 1) == h.round(i) + 1,
{
    lemma_waiters_are_waiting(h, i);
    assert(h.leads_on(i));
}

/// The coordinator holds the waiters of those who wait.
proof fn lemma_waiters_are_waiting<W>(h: History<W>, i: int)
    requires
        h.wf(),
        h.states[0].waiters() == Seq::<W>::empty(),
        0 <= i <= h.events.len(),
    ensures
        h.states[i].waiters() == waiting(h, i),
    decreases i,
{
    if i > 0 {
        lemma_waiters_are_waiting(h, i - 1);
        assert(h.leads_on(i - 1));
    }
}

/// The numbers of workers that a run expects and that a timeout needs never change.
pub proof fn law_expectations_stay<W>(h: History<W>, i: int)
    requires
        h.wf(),
        0 <= i <= h.events.len(),
    ensures
        h.states[i].expected_workers() == h.states[0].expected_workers(),
        h.states[i].timeout_workers() == h.states[0].timeout_workers(),
    decreases i,
{
    if i > 0 {
        law_expectations_stay(h, i - 1);
        assert(h.leads_on(i - 1));
    }
}

/// A submission that is refused is told both rounds: the one that was sent and the one that
/// the coordinator is on.
pub proof fn law_refusals_tell_both_rounds<W>(h: History<W>, i: int)
    requires
        h.wf(),
        0 <= i < h.events.len(),
        h.events[i] is Request,
        h.events[i]->outcome is Err,
    ensures
        h.events[i]->outcome->Err_0 matches Refusal::RoundMismatch { sent, current } && sent
            == h.events[i]->round && current == h.round(i),
{
    assert(h.leads_on(i));
}

} // verus!
