//! Adding up many numbers: what a chain of candle's additions comes to, and that it counts
//! every number once wherever the additions are exact.
use crate::outer::total;
use crate::tensor::{number_sum, ElementType};
use vstd::prelude::*;

verus! {

/// The first of `xs` with each of the others added to it in turn.
pub open spec fn chain(element: ElementType, xs: Seq<u64>) -> u64 {
    xs.skip(1).fold_left(xs[0], |sum: u64, x: u64| number_sum(element, sum, x))
}

/// The size of an integer without its sign.
pub open spec fn magnitude(x: int) -> int {
    if x < 0 {
        -x
    } else {
        x
    }
}

/// In a unit, of which `units` says how many a number stands for, additions are exact as long
/// as they do not lead beyond `bound`. In single precision that holds of whole numbers up to
/// 2 to the 24th.
pub open spec fn exact_up_to(
    element: ElementType,
    units: spec_fn(u64) -> int,
    bound: int,
) -> bool {
    forall|a: u64, b: u64|
        magnitude(units(a)) + magnitude(units(b)) <= bound ==> units(
            #[trigger] number_sum(element, a, b),
        ) == units(a) + units(b)
}

/// How many units each of `xs` stands for.
pub open spec fn in_units(xs: Seq<u64>, units: spec_fn(u64) -> int) -> Seq<int> {
    xs.map_values(|x: u64| units(x))
}

/// How many units each of `xs` stands for, without the signs.
pub open spec fn magnitudes(xs: Seq<u64>, units: spec_fn(u64) -> int) -> Seq<int> {
    xs.map_values(|x: u64| magnitude(units(x)))
}

/// The last number of a chain is added last.
pub proof fn lemma_chain_grows(element: ElementType, xs: Seq<u64>)
    requires
        xs.len() >= 2,
    ensures
        chain(element, xs) == number_sum(element, chain(element, xs.drop_last()), xs.last()),
{
    reveal_with_fuel(Seq::fold_left, 2);
    let rest = xs.skip(1);
    assert(rest.drop_last() =~= xs.drop_last().skip(1));
    assert(rest.last() == xs.last());
}

/// A chain of one number is that number.
pub proof fn lemma_chain_of_one(element: ElementType, xs: Seq<u64>)
    requires
        xs.len() == 1,
    ensures
        chain(element, xs) == xs[0],
{
    reveal_with_fuel(Seq::fold_left, 2);
    assert(xs.skip(1).len() == 0);
}

/// A sum of integers grows by the last of them.
pub proof fn lemma_total_grows(xs: Seq<int>)
    requires
        xs.len() > 0,
    ensures
        total(xs) == total(xs.drop_last()) + xs.last(),
{
    reveal_with_fuel(Seq::fold_left, 2);
}

/// A chain counts every number once: wherever the numbers together stay within the bound up
/// to which additions are exact, it comes to what all of them add up to.
pub proof fn law_chain_counts_every_number_once(
    element: ElementType,
    xs: Seq<u64>,
    units: spec_fn(u64) -> int,
    bound: int,
)
    requires
        xs.len() > 0,
        exact_up_to(element, units, bound),
        total(magnitudes(xs, units)) <= bound,
    ensures
        units(chain(element, xs)) == total(in_units(xs, units)),
        magnitude(total(in_units(xs, units))) <= total(magnitudes(xs, units)),
    decreases xs.len(),
{
    let all = in_units(xs, units);
    let sizes = magnitudes(xs, units);
    lemma_total_grows(all);
    lemma_total_grows(sizes);
    let rest = xs.drop_last();
    assert(all.drop_last() =~= in_units(rest, units));
    assert(sizes.drop_last() =~= magnitudes(rest, units));
    if xs.len() == 1 {
        lemma_chain_of_one(element, xs);
        reveal_with_fuel(Seq::fold_left, 2);
        assert(total(all.drop_last()) == 0);
        assert(total(sizes.drop_last()) == 0);
    } else {
        lemma_chain_grows(element, xs);
        law_chain_counts_every_number_once(element, rest, units, bound);
        let before = chain(element, rest);
        assert(units(number_sum(element, before, xs.last())) == units(before) + units(xs.last()));
    }
}

} // verus!
