//! The synchronous data-parallel baseline: it takes the mean loss of all workers' batches
//! in every step, and is evaluated where a DiLoCo run ends its rounds.
use crate::exact::{
    chain, exact_up_to, in_units, law_chain_counts_every_number_once, lemma_chain_grows,
    lemma_chain_of_one, magnitudes,
};
use crate::outer::total;
use crate::tensor::{
    add_tensors, count_bits, is_scalar, number, number_reciprocal, number_scaled, reciprocal,
    reciprocal_bits, scale_tensor, scaled, share, sum, value, ElementType, TensorValue,
};
use candle_core::Tensor;
use vstd::arithmetic::div_mod::{
    lemma_div_multiples_vanish, lemma_fundamental_div_mod, lemma_mod_multiples_basic,
};
use vstd::prelude::*;

verus! {

/// The number of global steps that match the compute of `rounds` DiLoCo rounds.
pub fn total_steps(rounds: u64, inner_steps: u64) -> (steps: u64)
    requires
        rounds * inner_steps <= u64::MAX,
    ensures
        steps == rounds * inner_steps,
{
    rounds * inner_steps
}

/// The DiLoCo round whose end step `step` corresponds to, if there is one.
pub open spec fn checkpoint(step: int, inner_steps: int) -> Option<int> {
    if step % inner_steps == 0 {
        Some(step / inner_steps)
    } else {
        None
    }
}

/// The round to log after step `step`: the baseline is evaluated every `inner_steps` steps.
pub fn checkpoint_round(step: u64, inner_steps: u64) -> (round: Option<u64>)
    requires
        inner_steps > 0,
    ensures
        match checkpoint(step as int, inner_steps as int) {
            Some(r) => round matches Some(n) && n == r,
            None => round is None,
        },
{
    if step % inner_steps == 0 {
        Some(step / inner_steps)
    } else {
        None
    }
}

/// The rows of the two runs line up: the baseline logs the rounds 1 to `rounds`, each
/// after the step that completes it, and nothing else.
pub proof fn law_checkpoints_are_rounds(rounds: int, inner_steps: int, step: int, round: int)
    requires
        inner_steps > 0,
        1 <= step <= rounds * inner_steps,
    ensures
        checkpoint(step, inner_steps) == Some(round) <==> step == round * inner_steps,
        checkpoint(step, inner_steps) == Some(round) ==> 1 <= round <= rounds,
{
    if checkpoint(step, inner_steps) == Some(round) {
        lemma_fundamental_div_mod(step, inner_steps);
        assert(step == round * inner_steps) by (nonlinear_arith)
            requires
                step == inner_steps * round + 0,
        ;
        assert(1 <= round <= rounds) by (nonlinear_arith)
            requires
                1 <= step <= rounds * inner_steps,
                step == round * inner_steps,
                inner_steps > 0,
        ;
    }
    if step == round * inner_steps {
        lemma_div_multiples_vanish(round, inner_steps);
        lemma_mod_multiples_basic(round, inner_steps);
        assert(round * inner_steps == inner_steps * round) by (nonlinear_arith);
    }
}

/// The sum of the first `count` losses, from the first on.
pub open spec fn summed(losses: Seq<Tensor>, count: nat) -> TensorValue
    decreases count,
{
    if count <= 1 {
        value(losses[0]).numeric()
    } else {
        sum(summed(losses, (count - 1) as nat), value(losses[count - 1]).numeric())
    }
}

/// The mean of the losses: their sum times the reciprocal of their number.
pub open spec fn mean_value(losses: Seq<Tensor>) -> TensorValue {
    scaled(summed(losses, losses.len()), reciprocal_bits(losses.len() as usize))
}

/// The mean of the workers' losses on their batches. Its gradient is the mean of the
/// workers' gradients, so one step on it is the step of synchronous training.
pub fn mean_of_losses(losses: &[Tensor]) -> (mean: Result<Tensor, candle_core::Error>)
    requires
        0 < losses@.len() <= isize::MAX,
        forall|w: int| 0 <= w < losses@.len() ==> is_scalar(#[trigger] losses@[w], ElementType::F32),
    ensures
        mean matches Ok(m) && is_scalar(m, ElementType::F32) && value(m).numeric() == scaled(
            summed(losses@, losses@.len()),
            reciprocal_bits(losses@.len() as usize),
        ) && value(m).numeric() == mean_value(losses@),
{
    let mut total = share(&losses[0]);
    let mut w: usize = 1;
    assert(value(total).numeric() =~= summed(losses@, 1));
    while w < losses.len()
        invariant
            1 <= w <= losses@.len(),
            forall|w: int|
                0 <= w < losses@.len() ==> is_scalar(#[trigger] losses@[w], ElementType::F32),
            is_scalar(total, ElementType::F32),
            value(total).numeric() == summed(losses@, w as nat),
        decreases losses@.len() - w,
    {
        let next = add_tensors(&total, &losses[w])?;
        assert(value(next).numeric() =~= sum(
            value(total).numeric(),
            value(losses@[w as int]).numeric(),
        ));
        assert(value(next).numeric().bits.len() == 1);
        total = next;
        w = w + 1;
    }
    let factor = reciprocal(losses.len())?;
    let mean = scale_tensor(&total, factor)?;
    assert(value(mean).numeric() =~= scaled(
        value(total).numeric(),
        reciprocal_bits(losses.len()),
    ));
    assert(value(mean).numeric().bits.len() == 1);
    Ok(mean)
}

/// The numbers that the workers' losses hold.
pub open spec fn loss_numbers(losses: Seq<Tensor>) -> Seq<u64> {
    losses.map_values(|loss: Tensor| value(loss).numeric().bits[0])
}

/// The losses are added up one by one, from the first worker's to the last one's.
pub proof fn law_losses_add_up_in_order(losses: Seq<Tensor>, count: nat)
    requires
        1 <= count <= losses.len(),
        forall|w: int| 0 <= w < losses.len() ==> is_scalar(#[trigger] losses[w], ElementType::F32),
    ensures
        summed(losses, count).element == ElementType::F32,
        summed(losses, count).dims == Seq::<usize>::empty(),
        summed(losses, count).bits == seq![
            chain(ElementType::F32, loss_numbers(losses).take(count as int)),
        ],
    decreases count,
{
    let xs = loss_numbers(losses).take(count as int);
    assert(is_scalar(losses[0], ElementType::F32));
    assert(is_scalar(losses[count - 1], ElementType::F32));
    if count == 1 {
        lemma_chain_of_one(ElementType::F32, xs);
    } else {
        law_losses_add_up_in_order(losses, (count - 1) as nat);
        assert(xs.drop_last() =~= loss_numbers(losses).take(count - 1));
        lemma_chain_grows(ElementType::F32, xs);
    }
    assert(summed(losses, count).bits =~= seq![chain(ElementType::F32, xs)]);
}

/// The mean is the sum of all losses, added up one by one, times the reciprocal of their number.
pub proof fn law_mean_takes_in_every_loss(losses: Seq<Tensor>)
    requires
        losses.len() > 0,
        forall|w: int| 0 <= w < losses.len() ==> is_scalar(#[trigger] losses[w], ElementType::F32),
    ensures
        mean_value(losses).element == ElementType::F32,
        mean_value(losses).dims == Seq::<usize>::empty(),
        mean_value(losses).bits == seq![
            number_scaled(
                ElementType::F32,
                chain(ElementType::F32, loss_numbers(losses)),
                number(
                    ElementType::F64,
                    number_reciprocal(ElementType::F64, count_bits(losses.len() as usize)),
                ),
            ),
        ],
{
    law_losses_add_up_in_order(losses, losses.len());
    let xs = loss_numbers(losses);
    assert(xs.take(losses.len() as int) =~= xs);
    assert(mean_value(losses).bits.len() == 1);
}

/// Every worker's loss counts once: wherever the additions are exact, the sum that the mean is
/// taken of is what all the losses add up to; and where the division by the number of workers
/// is exact too, that number times the mean is.
pub proof fn law_every_loss_counts_once(
    losses: Seq<Tensor>,
    units: spec_fn(u64) -> int,
    bound: int,
)
    requires
        losses.len() > 0,
        forall|w: int| 0 <= w < losses.len() ==> is_scalar(#[trigger] losses[w], ElementType::F32),
        exact_up_to(ElementType::F32, units, bound),
        total(magnitudes(loss_numbers(losses), units)) <= bound,
    ensures
        units(summed(losses, losses.len()).bits[0]) == total(in_units(loss_numbers(losses), units)),
        ({
            let n = losses.len() as int;
            let all = total(in_units(loss_numbers(losses), units));
            let share = number(
                ElementType::F64,
                number_reciprocal(ElementType::F64, count_bits(losses.len() as usize)),
            );
            let divides = forall|x: u64|
                units(x) % n == 0 ==> n * units(
                    #[trigger] number_scaled(ElementType::F32, x, share),
                ) == units(x);
            divides && all % n == 0 ==> n * units(mean_value(losses).bits[0]) == all
        }),
{
    law_losses_add_up_in_order(losses, losses.len());
    law_mean_takes_in_every_loss(losses);
    let xs = loss_numbers(losses);
    assert(xs.take(losses.len() as int) =~= xs);
    law_chain_counts_every_number_once(ElementType::F32, xs, units, bound);
}

} // verus!
