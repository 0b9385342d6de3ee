//! DiLoCo's outer optimizer, run by the coordinator once per round.
//!
//! Each worker trains locally for K steps starting from the shared global
//! parameters `theta`, producing `theta_i`. The coordinator forms the averaged
//! "pseudo-gradient"
//!
//! ```text
//!   delta = theta - mean_i(theta_i)
//! ```
//!
//! and applies it with SGD + Nesterov momentum:
//!
//! ```text
//!   m     = mu * m + delta
//!   theta = theta - lr * (delta + mu * m)
//! ```
use crate::exact::{
    chain, exact_up_to, in_units, law_chain_counts_every_number_once, lemma_chain_grows,
    lemma_chain_of_one, lemma_total_grows, magnitude, magnitudes,
};
use crate::layers::is_full;
use crate::params::{
    all_full_precision, distinct_names, entries_map, is_storable, lemma_entry_in_map, ParamMap,
};
use crate::tensor::{
    add_tensors, count_bits, difference, element_count, element_type, is_finite, number,
    number_difference, number_reciprocal, number_scaled, number_sum, reciprocal, reciprocal_bits,
    scale_tensor, scaled, share, subtract_tensors, sum, value, zeros_like, ElementType, TensorValue,
    ONE,
};
use candle_core::Tensor;
use vstd::prelude::*;

verus! {

/// Why an outer step stopped.
#[derive(Debug)]
pub enum StepError {
    /// There was no worker to average over.
    NoWorkers,
    /// A worker did not send a parameter that the global model has.
    MissingParam { worker: usize, name: String },
    /// The first worker sent a parameter that does not hold floating-point numbers of
    /// full precision, so it cannot be averaged.
    ElementType { name: String },
    /// The tensors under one name do not fit together.
    Tensor { name: String, error: candle_core::Error },
}

/// What is wrong with one parameter of a round.
pub enum Fault {
    /// The worker in this place did not send it.
    Missing(int),
    /// It cannot be summed.
    NotSummable,
    /// Dimensions or element types differ.
    Mismatch,
}

impl StepError {
    /// The error reports `fault` in the parameter called `name`.
    pub open spec fn reports(self, fault: Fault, name: Seq<char>) -> bool {
        match fault {
            Fault::Missing(w) => self matches StepError::MissingParam { worker, name: n } && worker
                == w && n@ == name,
            Fault::NotSummable => self matches StepError::ElementType { name: n } && n@ == name,
            Fault::Mismatch => self matches StepError::Tensor { name: n, .. } && n@ == name,
        }
    }
}

/// The sum over the first `count` workers of their tensors called `name`.
pub open spec fn local_sum(
    locals: Seq<Map<Seq<char>, TensorValue>>,
    name: Seq<char>,
    count: nat,
) -> Result<TensorValue, Fault>
    decreases count,
{
    if count <= 1 {
        if !locals[0].contains_key(name) {
            Err(Fault::Missing(0))
        } else if !locals[0][name].is_summable() {
            Err(Fault::NotSummable)
        } else {
            Ok(locals[0][name].numeric())
        }
    } else {
        match local_sum(locals, name, (count - 1) as nat) {
            Err(fault) => Err(fault),
            Ok(total) => {
                let worker = count - 1;
                if !locals[worker].contains_key(name) {
                    Err(Fault::Missing(worker))
                } else if !total.accepts(locals[worker][name]) {
                    Err(Fault::Mismatch)
                } else {
                    Ok(sum(total, locals[worker][name].numeric()))
                }
            },
        }
    }
}

/// The mean over all workers of their tensors called `name`.
pub open spec fn local_mean(
    locals: Seq<Map<Seq<char>, TensorValue>>,
    name: Seq<char>,
) -> Result<TensorValue, Fault> {
    match local_sum(locals, name, locals.len()) {
        Err(fault) => Err(fault),
        Ok(total) => Ok(scaled(total, reciprocal_bits(locals.len() as usize))),
    }
}

/// The momentum after a step: `mu * m + delta`.
pub open spec fn next_momentum(m: TensorValue, delta: TensorValue, mu: u64) -> TensorValue {
    sum(scaled(m, mu), delta)
}

/// The parameter after a step with Nesterov momentum, `m` being the new momentum:
/// `theta - lr * (delta + mu * m)`.
pub open spec fn next_theta(
    theta: TensorValue,
    delta: TensorValue,
    m: TensorValue,
    lr: u64,
    mu: u64,
) -> TensorValue {
    difference(theta, scaled(sum(delta, scaled(m, mu)), lr))
}

/// One parameter after an outer step, with its momentum.
pub open spec fn outer_update(
    theta: TensorValue,
    m: TensorValue,
    locals: Seq<Map<Seq<char>, TensorValue>>,
    name: Seq<char>,
    lr: u64,
    mu: u64,
) -> Result<(TensorValue, TensorValue), Fault> {
    match local_mean(locals, name) {
        Err(fault) => Err(fault),
        Ok(mean) => {
            let delta = difference(theta.numeric(), mean);
            if !theta.accepts(mean) || !m.accepts(delta) {
                Err(Fault::Mismatch)
            } else {
                let next_m = next_momentum(m.numeric(), delta, mu);
                Ok((next_theta(theta.numeric(), delta, next_m, lr, mu), next_m))
            }
        },
    }
}

/// With a learning rate of 1 and no momentum the outer step is plain averaging: from `theta`
/// with momentum `m`, both finite in what matters, it goes to `theta - (theta - mean)`. In
/// real numbers that is the mean itself; here it is the mean wherever these two differences
/// are exact. What is left as momentum is the difference, which counts for nothing.
pub open spec fn averages_plainly(
    theta: TensorValue,
    m: TensorValue,
    mean: TensorValue,
    lr: u64,
    mu: u64,
    next_theta: TensorValue,
    next_m: TensorValue,
) -> bool {
    let delta = difference(theta, mean).unsigned_zeros();
    lr == ONE && mu == 0 && m.element == theta.element && m.all_finite() && difference(
        theta,
        mean,
    ).all_finite() ==> {
        &&& next_theta == difference(theta, delta)
        &&& next_m == delta
        &&& difference(theta, delta) == mean ==> next_theta == mean
    }
}

/// What the workers sent, each as a map from names to tensors.
pub open spec fn views(locals: Seq<ParamMap>) -> Seq<Map<Seq<char>, TensorValue>> {
    locals.map_values(|p: ParamMap| p@)
}

/// The mean of the workers' local parameters called `name`.
fn mean_of(locals: &[ParamMap], name: &String) -> (mean: Result<Tensor, StepError>)
    requires
        0 < locals@.len() <= isize::MAX,
        forall|w: int| 0 <= w < locals@.len() ==> (#[trigger] locals@[w]).wf(),
    ensures
        match local_mean(views(locals@), name@) {
            Ok(expected) => mean matches Ok(t) && value(t).numeric() == expected,
            Err(fault) => mean matches Err(e) && e.reports(fault, name@),
        },
        mean matches Ok(t) ==> value(t).is_summable(),
        mean matches Ok(t) ==> locals@.len() == 1 ==> value(t).numeric() == views(
            locals@,
        )[0][name@].numeric().unsigned_zeros(),
{
    let ghost sent = views(locals@);
    assert(sent[0] == locals@[0]@);
    let first = match locals[0].get(name) {
        Some(t) => t,
        None => {
            proof {
                lemma_fault_stays(sent, name@, 1);
            }
            return Err(StepError::MissingParam { worker: 0, name: name.clone() });
        },
    };
    if !(element_type(first).full_precision() || element_count(first) == 0) {
        proof {
            lemma_fault_stays(sent, name@, 1);
        }
        return Err(StepError::ElementType { name: name.clone() });
    }
    let mut total = share(first);
    let mut w: usize = 1;
    while w < locals.len()
        invariant
            1 <= w <= locals@.len(),
            sent == views(locals@),
            forall|w: int| 0 <= w < locals@.len() ==> (#[trigger] locals@[w]).wf(),
            local_sum(sent, name@, w as nat) == Ok::<TensorValue, Fault>(value(total).numeric()),
            value(total).is_summable(),
            locals@.len() == 1 ==> value(total).numeric() == sent[0][name@].numeric(),
        decreases locals@.len() - w,
    {
        assert(sent[w as int] == locals@[w as int]@);
        let t = match locals[w].get(name) {
            Some(t) => t,
            None => {
                proof {
                    lemma_fault_stays(sent, name@, (w + 1) as nat);
                }
                return Err(StepError::MissingParam { worker: w, name: name.clone() });
            },
        };
        let next = match add_tensors(&total, t) {
            Ok(next) => next,
            Err(error) => {
                proof {
                    lemma_fault_stays(sent, name@, (w + 1) as nat);
                }
                return Err(StepError::Tensor { name: name.clone(), error });
            },
        };
        assert(value(next).numeric() =~= sum(value(total).numeric(), value(*t).numeric()));
        total = next;
        w = w + 1;
    }
    let factor = match reciprocal(locals.len()) {
        Ok(factor) => factor,
        Err(error) => return Err(StepError::Tensor { name: name.clone(), error }),
    };
    let mean = match scale_tensor(&total, factor) {
        Ok(mean) => mean,
        Err(error) => return Err(StepError::Tensor { name: name.clone(), error }),
    };
    assert(value(mean).numeric() =~= scaled(
        value(total).numeric(),
        reciprocal_bits(locals.len()),
    ));
    if locals.len() == 1 {
        assert(value(mean).numeric() =~= value(total).numeric().unsigned_zeros());
    }
    Ok(mean)
}

/// A fault among the first workers is the fault of the whole sum.
proof fn lemma_fault_stays(
    locals: Seq<Map<Seq<char>, TensorValue>>,
    name: Seq<char>,
    count: nat,
)
    requires
        1 <= count <= locals.len(),
        local_sum(locals, name, count) is Err,
    ensures
        local_sum(locals, name, locals.len()) == local_sum(locals, name, count),
    decreases locals.len() - count,
{
    if count < locals.len() {
        lemma_fault_stays(locals, name, count + 1);
    }
}

/// One parameter and its momentum after a step, from the mean of the workers'.
fn update_one(theta: &Tensor, m: &Tensor, mean: &Tensor, lr: u64, mu: u64) -> (next: Result<
    (Tensor, Tensor),
    candle_core::Error,
>)
    requires
        value(*theta).element.is_full_precision(),
        value(*m).element.is_full_precision(),
    ensures
        ({
            let delta = difference(value(*theta).numeric(), value(*mean).numeric());
            let next_m = next_momentum(value(*m).numeric(), delta, mu);
            let fits = value(*theta).accepts(value(*mean)) && value(*m).accepts(delta);
            &&& next is Ok <==> fits
            &&& next matches Ok(n) ==> value(n.0).numeric() == next_theta(
                value(*theta).numeric(),
                delta,
                next_m,
                lr,
                mu,
            ) && value(n.1).numeric() == next_m && averages_plainly(
                value(*theta).numeric(),
                value(*m).numeric(),
                value(*mean).numeric(),
                lr,
                mu,
                value(n.0).numeric(),
                value(n.1).numeric(),
            )
        }),
{
    // delta = theta - mean(theta_i)
    let delta = subtract_tensors(theta, mean)?;
    assert(value(delta).numeric() =~= difference(
        value(*theta).numeric(),
        value(*mean).numeric(),
    ));
    // m = mu * m + delta
    let decayed = scale_tensor(m, mu)?;
    assert(value(decayed).numeric() =~= scaled(value(*m).numeric(), mu));
    let next_m = add_tensors(&decayed, &delta)?;
    assert(value(next_m).numeric() =~= next_momentum(
        value(*m).numeric(),
        value(delta).numeric(),
        mu,
    ));
    // theta = theta - lr * (delta + mu * m)   (Nesterov)
    let ahead = scale_tensor(&next_m, mu)?;
    assert(value(ahead).numeric() =~= scaled(value(next_m).numeric(), mu));
    let update = add_tensors(&delta, &ahead)?;
    assert(value(update).numeric() =~= sum(value(delta).numeric(), value(ahead).numeric()));
    let move_by = scale_tensor(&update, lr)?;
    assert(value(move_by).numeric() =~= scaled(value(update).numeric(), lr));
    let next_theta_tensor = subtract_tensors(theta, &move_by)?;
    assert(value(next_theta_tensor).numeric() =~= difference(
        value(*theta).numeric(),
        value(move_by).numeric(),
    ));
    proof {
        let plain = value(delta).numeric().unsigned_zeros();
        if lr == ONE && mu == 0 && value(*m).element == value(*theta).element && value(
            *m,
        ).numeric().all_finite() && value(delta).numeric().all_finite() {
            assert(value(next_m).numeric() =~= plain);
            assert forall|i: int| 0 <= i < plain.bits.len() implies is_finite(
                plain.element,
                #[trigger] plain.bits[i],
            ) by {
                assert(is_finite(plain.element, value(delta).numeric().bits[i]));
            }
            assert(value(ahead).all_zero());
            assert(value(update).numeric() =~= plain);
            assert(plain.unsigned_zeros() =~= plain);
            assert(value(move_by).numeric() =~= plain);
        }
    }
    Ok((next_theta_tensor, next_m))
}

/// SGD with Nesterov momentum over the named parameters of a model. The learning rate
/// `lr` and the momentum coefficient `mu` are double-precision numbers, each given by
/// its bit pattern.
pub struct OuterOptimizer {
    momentum: ParamMap,
    lr: u64,
    mu: u64,
}

impl OuterOptimizer {
    /// The momentum of each parameter.
    pub closed spec fn momentum(self) -> Map<Seq<char>, TensorValue> {
        self.momentum@
    }

    /// The bit pattern of the learning rate.
    pub closed spec fn lr(self) -> u64 {
        self.lr
    }

    /// The bit pattern of the momentum coefficient.
    pub closed spec fn mu(self) -> u64 {
        self.mu
    }

    /// No parameter has more than one momentum.
    pub closed spec fn wf(self) -> bool {
        self.momentum.wf()
    }

    /// The momentum is kept in full precision, so that it can be stepped.
    pub open spec fn is_full_precision(self) -> bool {
        all_full_precision(self.momentum())
    }

    /// There is a momentum for every parameter of `global`.
    pub open spec fn covers(self, global: Map<Seq<char>, TensorValue>) -> bool {
        forall|name: Seq<char>| #[trigger] global.contains_key(name) ==> self.momentum().contains_key(name)
    }

    /// From `(self, global)` the first `count` parameters of `global` have been stepped,
    /// giving `(after, stepped)`; everything else is as it was.
    pub open spec fn has_stepped(
        self,
        global: Seq<(Seq<char>, TensorValue)>,
        after: OuterOptimizer,
        stepped: Seq<(Seq<char>, TensorValue)>,
        locals: Seq<Map<Seq<char>, TensorValue>>,
        count: int,
    ) -> bool {
        &&& after.lr() == self.lr()
        &&& after.mu() == self.mu()
        &&& after.momentum().dom() == self.momentum().dom()
        &&& stepped.len() == global.len()
        &&& forall|i: int| 0 <= i < global.len() ==> (#[trigger] stepped[i]).0 == global[i].0
        &&& forall|i: int|
            #![trigger stepped[i]]
            0 <= i < count ==> outer_update(
                global[i].1,
                self.momentum()[global[i].0],
                locals,
                global[i].0,
                self.lr(),
                self.mu(),
            ) == Ok::<(TensorValue, TensorValue), Fault>(
                (stepped[i].1.numeric(), after.momentum()[global[i].0].numeric()),
            )
        &&& forall|i: int| count <= i < global.len() ==> #[trigger] stepped[i] == global[i]
        &&& forall|name: Seq<char>|
            self.momentum().contains_key(name) && (forall|i: int|
                0 <= i < count ==> (#[trigger] global[i]).0 != name)
                ==> #[trigger] after.momentum()[name] == self.momentum()[name]
    }

    /// With a learning rate of 1 and no momentum the first `count` parameters have been
    /// replaced by the plain mean of the workers', as far as the arithmetic is exact; and the
    /// mean of one worker is what it sent, but for the sign of zeros.
    pub open spec fn has_averaged(
        self,
        global: Seq<(Seq<char>, TensorValue)>,
        after: OuterOptimizer,
        stepped: Seq<(Seq<char>, TensorValue)>,
        locals: Seq<Map<Seq<char>, TensorValue>>,
        count: int,
    ) -> bool {
        forall|i: int|
            #![trigger stepped[i]]
            0 <= i < count ==> {
                let name = global[i].0;
                let mean = local_mean(locals, name)->Ok_0;
                &&& averages_plainly(
                    global[i].1.numeric(),
                    self.momentum()[name].numeric(),
                    mean,
                    self.lr(),
                    self.mu(),
                    stepped[i].1.numeric(),
                    after.momentum()[name].numeric(),
                )
                &&& locals.len() == 1 ==> mean == locals[0][name].numeric().unsigned_zeros()
            }
    }

    /// A step from `(self, global)` cannot get past the parameter in place `k`, and `e`
    /// says why.
    pub open spec fn fails_on(
        self,
        global: Seq<(Seq<char>, TensorValue)>,
        locals: Seq<Map<Seq<char>, TensorValue>>,
        k: int,
        e: StepError,
    ) -> bool {
        outer_update(
            global[k].1,
            self.momentum()[global[k].0],
            locals,
            global[k].0,
            self.lr(),
            self.mu(),
        ) matches Err(fault) && e.reports(fault, global[k].0)
    }

    /// A step from `(self, global)` stops with the error `e`, leaving `(after, stepped)`:
    /// without workers nothing changes; otherwise the parameters before the faulty one
    /// have been stepped.
    pub open spec fn stops(
        self,
        global: ParamMap,
        after: OuterOptimizer,
        stepped: ParamMap,
        locals: Seq<Map<Seq<char>, TensorValue>>,
        e: StepError,
    ) -> bool {
        if locals.len() == 0 {
            e is NoWorkers && after == self && stepped == global
        } else {
            exists|k: int|
                0 <= k < global.entries().len() && #[trigger] self.has_stepped(
                    global.entries(),
                    after,
                    stepped.entries(),
                    locals,
                    k,
                ) && self.fails_on(global.entries(), locals, k, e)
        }
    }

    /// Momentum buffers are initialized to zero with the same shapes as the global
    /// parameters. There are none for packed element types.
    pub fn new(global: &ParamMap, lr: u64, mu: u64) -> (outer: Result<
        OuterOptimizer,
        candle_core::Error,
    >)
        requires
            global.wf(),
        ensures
            outer is Ok <==> is_storable(global@),
            outer matches Ok(o) ==> {
                &&& o.wf()
                &&& all_full_precision(global@) ==> o.is_full_precision()
                &&& o.lr() == lr
                &&& o.mu() == mu
                &&& o.momentum().dom() == global@.dom()
                &&& forall|name: Seq<char>| #[trigger]
                    global@.contains_key(name) ==> o.momentum()[name] == (TensorValue {
                        bits: Seq::new(global@[name].bits.len(), |i: int| 0u64),
                        ..global@[name]
                    })
            },
    {
        let mut momentum = ParamMap::new();
        let mut i: usize = 0;
        let n = global.len();
        while i < n
            invariant
                i <= n,
                n == global.entries().len(),
                global.wf(),
                forall|j: int| 0 <= j < i ==> !((#[trigger] global.entries()[j]).1.element is Packed),
                momentum.wf(),
                forall|name: Seq<char>|
                    #![trigger momentum@.contains_key(name)]
                    momentum@.contains_key(name) <==> exists|j: int|
                        0 <= j < i && #[trigger] global.entries()[j].0 == name,
                forall|j: int|
                    0 <= j < i ==> momentum@[(#[trigger] global.entries()[j]).0] == (TensorValue {
                        bits: Seq::new(global.entries()[j].1.bits.len(), |k: int| 0u64),
                        ..global.entries()[j].1
                    }),
            decreases n - i,
        {
            let ghost before = momentum@;
            proof {
                lemma_entry_in_map(global.entries(), i as int);
            }
            let zeros = match zeros_like(global.tensor_at(i)) {
                Ok(z) => z,
                Err(e) => {
                    assert(global@.contains_key(global.entries()[i as int].0));
                    return Err(e);
                },
            };
            let ghost name = global.entries()[i as int].0;
            momentum.insert(global.name_at(i).clone(), zeros);
            i = i + 1;
            proof {
                assert forall|n: Seq<char>|
                    #![trigger momentum@.contains_key(n)]
                    momentum@.contains_key(n) <==> exists|j: int|
                        0 <= j < i && #[trigger] global.entries()[j].0 == n by {
                    if n == name {
                        assert(global.entries()[i - 1].0 == n);
                    } else if before.contains_key(n) {
                        let j = choose|j: int|
                            0 <= j < i - 1 && #[trigger] global.entries()[j].0 == n;
                        assert(global.entries()[j].0 == n);
                    }
                }
                assert forall|j: int| 0 <= j < i implies momentum@[(
                #[trigger] global.entries()[j]).0] == (TensorValue {
                    bits: Seq::new(global.entries()[j].1.bits.len(), |k: int| 0u64),
                    ..global.entries()[j].1
                }) by {
                    if j < i - 1 {
                        assert(global.entries()[j].0 != name);
                    }
                }
            }
        }
        proof {
            assert(is_storable(global@)) by {
                assert forall|name: Seq<char>| #[trigger] global@.contains_key(name) implies !(
                global@[name].element is Packed) by {
                    let j = choose|j: int|
                        0 <= j < global.entries().len() && #[trigger] global.entries()[j].0 == name;
                    lemma_entry_in_map(global.entries(), j);
                }
            }
            assert(momentum@.dom() =~= global@.dom());
            assert forall|name: Seq<char>| #[trigger] global@.contains_key(name) implies momentum@[name]
                == (TensorValue {
                bits: Seq::new(global@[name].bits.len(), |i: int| 0u64),
                ..global@[name]
            }) by {
                let j = choose|j: int|
                    0 <= j < global.entries().len() && #[trigger] global.entries()[j].0 == name;
                lemma_entry_in_map(global.entries(), j);
            }
        }
        Ok(OuterOptimizer { momentum, lr, mu })
    }

    /// Apply one outer step in place to `global`, given each worker's locally trained
    /// parameters. A step that fails has changed the parameters that stand before the
    /// one it failed on, and no others.
    pub fn step(&mut self, global: &mut ParamMap, locals: &[ParamMap]) -> (done: Result<
        (),
        StepError,
    >)
        requires
            old(self).wf(),
            old(self).is_full_precision(),
            old(global).wf(),
            all_full_precision(old(global)@),
            old(self).covers(old(global)@),
            locals@.len() <= isize::MAX,
            forall|w: int| 0 <= w < locals@.len() ==> (#[trigger] locals@[w]).wf(),
        ensures
            final(self).wf(),
            final(self).is_full_precision(),
            final(global).wf(),
            all_full_precision(final(global)@),
            final(global)@.dom() == old(global)@.dom(),
            final(self).covers(final(global)@),
            done is Ok ==> locals@.len() > 0 && old(self).has_stepped(
                old(global).entries(),
                *final(self),
                final(global).entries(),
                views(locals@),
                old(global).entries().len() as int,
            ),
            done is Ok ==> old(self).has_averaged(
                old(global).entries(),
                *final(self),
                final(global).entries(),
                views(locals@),
                old(global).entries().len() as int,
            ),
            done matches Err(e) ==> old(self).stops(
                *old(global),
                *final(self),
                *final(global),
                views(locals@),
                e,
            ),
    {
        if locals.len() == 0 {
            return Err(StepError::NoWorkers);
        }
        let ghost sent = views(locals@);
        let ghost start = *self;
        let ghost first = global.entries();
        let n = global.len();
        let mut i: usize = 0;
        while i < n
            invariant
                i <= n,
                n == first.len(),
                0 < locals@.len() <= isize::MAX,
                sent == views(locals@),
                forall|w: int| 0 <= w < locals@.len() ==> (#[trigger] locals@[w]).wf(),
                start.wf(),
                start.is_full_precision(),
                distinct_names(first),
                all_full_precision(entries_map(first)),
                start.covers(entries_map(first)),
                self.wf(),
                self.is_full_precision(),
                global.wf(),
                all_full_precision(global@),
                global@.dom() == entries_map(first).dom(),
                start.has_stepped(first, *self, global.entries(), sent, i as int),
                start.has_averaged(first, *self, global.entries(), sent, i as int),
                *old(self) == start,
                old(global).entries() == first,
                locals@.len() > 0,
            decreases n - i,
        {
            let ghost name = first[i as int].0;
            let ghost before = *self;
            let ghost before_entries = global.entries();
            assert(before_entries[i as int] == first[i as int]);
            proof {
                lemma_entry_in_map(first, i as int);
                lemma_entry_in_map(before_entries, i as int);
                assert(start.momentum().contains_key(name));
                assert(before.momentum().dom().contains(name));
                assert(before.momentum()[name] == start.momentum()[name]) by {
                    assert forall|j: int| 0 <= j < i implies (#[trigger] first[j]).0 != name by {
                        assert(first[j].0 != first[i as int].0);
                    }
                }
            }
            let mean = match mean_of(locals, global.name_at(i)) {
                Ok(mean) => mean,
                Err(e) => {
                    assert(old(self).fails_on(old(global).entries(), sent, i as int, e));
                    return Err(e);
                },
            };
            let place = match self.momentum.position(global.name_at(i)) {
                Some(place) => place,
                None => {
                    assert(false);
                    0
                },
            };
            let (theta, m) = match update_one(
                global.tensor_at(i),
                self.momentum.tensor_at(place),
                &mean,
                self.lr,
                self.mu,
            ) {
                Ok(next) => next,
                Err(error) => {
                    let e = StepError::Tensor { name: global.name_at(i).clone(), error };
                    assert(old(self).fails_on(old(global).entries(), sent, i as int, e));
                    return Err(e);
                },
            };
            self.momentum.set_at(place, m);
            global.set_at(i, theta);
            proof {
                let after = global.entries();
                assert(after[i as int].1.numeric() == value(theta).numeric());
                assert(self.momentum()[name] == value(m));
                assert(self.momentum().dom() =~= before.momentum().dom());
                assert(global@.dom() =~= entries_map(first).dom());
                assert forall|j: int|
                    #![trigger after[j]]
                    0 <= j < i + 1 implies outer_update(
                    first[j].1,
                    start.momentum()[first[j].0],
                    sent,
                    first[j].0,
                    start.lr(),
                    start.mu(),
                ) == Ok::<(TensorValue, TensorValue), Fault>(
                    (after[j].1.numeric(), self.momentum()[first[j].0].numeric()),
                ) by {
                    if j < i {
                        assert(before_entries[j] == after[j]);
                        assert(first[j].0 != first[i as int].0);
                    }
                }
                assert forall|j: int|
                    #![trigger after[j]]
                    0 <= j < i + 1 implies {
                    let mean = local_mean(sent, first[j].0)->Ok_0;
                    &&& averages_plainly(
                        first[j].1.numeric(),
                        start.momentum()[first[j].0].numeric(),
                        mean,
                        start.lr(),
                        start.mu(),
                        after[j].1.numeric(),
                        self.momentum()[first[j].0].numeric(),
                    )
                    &&& sent.len() == 1 ==> mean == sent[0][first[j].0].numeric().unsigned_zeros()
                } by {
                    if j < i {
                        assert(before_entries[j] == after[j]);
                        assert(first[j].0 != first[i as int].0);
                    }
                }
                assert forall|other: Seq<char>|
                    start.momentum().contains_key(other) && (forall|j: int|
                        0 <= j < i + 1 ==> (#[trigger] first[j]).0 != other) implies #[trigger] self.momentum()[other]
                    == start.momentum()[other] by {
                    assert(first[i as int].0 != other);
                }
                assert(all_full_precision(self.momentum@)) by {
                    assert(value(m).numeric().element == before.momentum()[name].element);
                }
                assert(all_full_precision(global@)) by {
                    assert(value(theta).numeric().element == first[i as int].1.element);
                }
            }
            i = i + 1;
        }
        Ok(())
    }
}

/// An outer step changes no parameter's dimensions or element type, nor those of its
/// momentum.
pub proof fn law_step_keeps_shapes(
    before: OuterOptimizer,
    global: Seq<(Seq<char>, TensorValue)>,
    after: OuterOptimizer,
    stepped: Seq<(Seq<char>, TensorValue)>,
    locals: Seq<Map<Seq<char>, TensorValue>>,
    count: int,
    i: int,
)
    requires
        before.has_stepped(global, after, stepped, locals, count),
        distinct_names(global),
        before.covers(entries_map(global)),
        0 <= i < global.len(),
        0 <= count <= global.len(),
    ensures
        stepped[i].1.dims == global[i].1.dims,
        stepped[i].1.element == global[i].1.element,
        after.momentum()[global[i].0].dims == before.momentum()[global[i].0].dims,
        after.momentum()[global[i].0].element == before.momentum()[global[i].0].element,
{
    let name = global[i].0;
    lemma_entry_in_map(global, i);
    if i < count {
        assert(stepped[i].1.numeric().dims == stepped[i].1.dims);
    } else {
        assert forall|j: int| 0 <= j < count implies (#[trigger] global[j]).0 != name by {
            assert(global[j].0 != global[i].0);
        }
        assert(before.momentum().contains_key(name));
    }
}

/// Names that the global parameters lack do not matter: an outer step on a parameter depends
/// on what the workers sent under its name alone.
pub proof fn law_unknown_names_do_not_matter(
    theta: TensorValue,
    m: TensorValue,
    locals: Seq<Map<Seq<char>, TensorValue>>,
    others: Seq<Map<Seq<char>, TensorValue>>,
    name: Seq<char>,
    lr: u64,
    mu: u64,
)
    requires
        0 < locals.len() == others.len(),
        forall|w: int|
            0 <= w < locals.len() ==> (#[trigger] locals[w]).contains_key(name)
                == others[w].contains_key(name),
        forall|w: int|
            0 <= w < locals.len() && (#[trigger] locals[w]).contains_key(name) ==> locals[w][name]
                == others[w][name],
    ensures
        outer_update(theta, m, locals, name, lr, mu) == outer_update(
            theta,
            m,
            others,
            name,
            lr,
            mu,
        ),
{
    lemma_sum_of_name(locals, others, name, locals.len());
}

/// The sum under a name depends on what was sent under that name alone.
proof fn lemma_sum_of_name(
    locals: Seq<Map<Seq<char>, TensorValue>>,
    others: Seq<Map<Seq<char>, TensorValue>>,
    name: Seq<char>,
    count: nat,
)
    requires
        0 < locals.len() == others.len(),
        count <= locals.len(),
        forall|w: int|
            0 <= w < locals.len() ==> (#[trigger] locals[w]).contains_key(name)
                == others[w].contains_key(name),
        forall|w: int|
            0 <= w < locals.len() && (#[trigger] locals[w]).contains_key(name) ==> locals[w][name]
                == others[w][name],
    ensures
        local_sum(locals, name, count) == local_sum(others, name, count),
    decreases count,
{
    if count > 1 {
        lemma_sum_of_name(locals, others, name, (count - 1) as nat);
        assert(locals[count - 1].contains_key(name) == others[count - 1].contains_key(name));
    } else {
        assert(locals[0].contains_key(name) == others[0].contains_key(name));
    }
}

/// The workers with those in places `k` and `k + 1` exchanged.
pub open spec fn neighbours_exchanged(
    locals: Seq<Map<Seq<char>, TensorValue>>,
    k: int,
) -> Seq<Map<Seq<char>, TensorValue>> {
    locals.update(k, locals[k + 1]).update(k + 1, locals[k])
}

/// The parameters called `name` of the workers in places `k` and `k + 1` add up to the same,
/// behind those of the workers before them, in either order.
pub open spec fn add_up_in_either_order(
    locals: Seq<Map<Seq<char>, TensorValue>>,
    name: Seq<char>,
    k: int,
) -> bool {
    let a = locals[k][name].numeric();
    let b = locals[k + 1][name].numeric();
    if k == 0 {
        sum(a, b) == sum(b, a)
    } else {
        let before = local_sum(locals, name, k as nat)->Ok_0;
        sum(sum(before, a), b) == sum(sum(before, b), a)
    }
}

/// The sum of two tensors of the same type and size does not depend on which stands first.
pub proof fn lemma_sum_is_commutative(a: TensorValue, b: TensorValue)
    requires
        a.element == b.element,
        a.dims == b.dims,
        a.bits.len() == b.bits.len(),
    ensures
        sum(a, b) == sum(b, a),
{
    assert(sum(a, b) =~= sum(b, a));
}

/// The first two workers can always trade places, so the order of two workers never matters.
pub proof fn law_first_two_workers_can_trade_places(
    theta: TensorValue,
    m: TensorValue,
    locals: Seq<Map<Seq<char>, TensorValue>>,
    name: Seq<char>,
    lr: u64,
    mu: u64,
)
    requires
        locals.len() >= 2,
        local_mean(locals, name) is Ok,
        is_full(locals[0][name]),
        is_full(locals[1][name]),
        locals[0][name].element == locals[1][name].element,
    ensures
        outer_update(theta, m, neighbours_exchanged(locals, 0), name, lr, mu) == outer_update(
            theta,
            m,
            locals,
            name,
            lr,
            mu,
        ),
{
    let a = locals[0][name];
    let b = locals[1][name];
    lemma_sums_before_are_ok(locals, name, 2, locals.len());
    reveal_with_fuel(local_sum, 3);
    lemma_sum_is_commutative(a.numeric(), b.numeric());
    lemma_first_two_exchanged(locals, name, locals.len());
}

/// Where the sum over all workers goes well, so do those over the first.
proof fn lemma_sums_before_are_ok(
    locals: Seq<Map<Seq<char>, TensorValue>>,
    name: Seq<char>,
    count: nat,
    all: nat,
)
    requires
        1 <= count <= all <= locals.len(),
        local_sum(locals, name, all) is Ok,
    ensures
        local_sum(locals, name, count) is Ok,
    decreases all - count,
{
    if count < all {
        lemma_sums_before_are_ok(locals, name, count, (all - 1) as nat);
    }
}

/// With the first two workers exchanged the sum is the same.
proof fn lemma_first_two_exchanged(
    locals: Seq<Map<Seq<char>, TensorValue>>,
    name: Seq<char>,
    count: nat,
)
    requires
        2 <= count <= locals.len(),
        local_sum(locals, name, count) is Ok,
        add_up_in_either_order(locals, name, 0),
        locals[0][name].element == locals[1][name].element,
    ensures
        local_sum(neighbours_exchanged(locals, 0), name, count) == local_sum(locals, name, count),
    decreases count,
{
    if count > 2 {
        lemma_first_two_exchanged(locals, name, (count - 1) as nat);
    } else {
        reveal_with_fuel(local_sum, 3);
    }
}

/// The order of the workers does not matter where rounding does not: two neighbours whose
/// parameters add up in either order can be exchanged, and any order can be reached by such
/// exchanges.
pub proof fn law_workers_can_trade_places(
    theta: TensorValue,
    m: TensorValue,
    locals: Seq<Map<Seq<char>, TensorValue>>,
    name: Seq<char>,
    k: int,
    lr: u64,
    mu: u64,
)
    requires
        0 <= k,
        k + 1 < locals.len(),
        local_mean(locals, name) is Ok,
        local_mean(neighbours_exchanged(locals, k), name) is Ok,
        add_up_in_either_order(locals, name, k),
    ensures
        outer_update(theta, m, neighbours_exchanged(locals, k), name, lr, mu) == outer_update(
            theta,
            m,
            locals,
            name,
            lr,
            mu,
        ),
{
    lemma_sum_after_exchange(locals, name, k, locals.len());
}

/// Behind two neighbours that can be exchanged the sum is the same.
proof fn lemma_sum_after_exchange(
    locals: Seq<Map<Seq<char>, TensorValue>>,
    name: Seq<char>,
    k: int,
    count: nat,
)
    requires
        0 <= k,
        k + 2 <= count <= locals.len(),
        local_sum(locals, name, count) is Ok,
        local_sum(neighbours_exchanged(locals, k), name, count) is Ok,
        add_up_in_either_order(locals, name, k),
    ensures
        local_sum(neighbours_exchanged(locals, k), name, count) == local_sum(locals, name, count),
    decreases count,
{
    let other = neighbours_exchanged(locals, k);
    if count > k + 2 {
        lemma_sum_after_exchange(locals, name, k, (count - 1) as nat);
    } else {
        reveal_with_fuel(local_sum, 3);
        if k > 0 {
            lemma_sum_before_exchange(locals, name, k, k as nat);
        }
    }
}

/// Before two neighbours that are exchanged nothing changes.
proof fn lemma_sum_before_exchange(
    locals: Seq<Map<Seq<char>, TensorValue>>,
    name: Seq<char>,
    k: int,
    count: nat,
)
    requires
        0 < k,
        k + 1 < locals.len(),
        count <= k,
    ensures
        local_sum(neighbours_exchanged(locals, k), name, count) == local_sum(locals, name, count),
    decreases count,
{
    if count > 1 {
        lemma_sum_before_exchange(locals, name, k, (count - 1) as nat);
    }
}

/// With a learning rate of 1 and no momentum the outer step is plain averaging, whatever the
/// steps before it: every parameter becomes the mean of the workers', wherever the difference
/// to the mean is exact. With one worker that is what the worker sent, but for the sign of
/// zeros.
pub proof fn law_plain_averaging(
    before: OuterOptimizer,
    global: Seq<(Seq<char>, TensorValue)>,
    after: OuterOptimizer,
    stepped: Seq<(Seq<char>, TensorValue)>,
    locals: Seq<Map<Seq<char>, TensorValue>>,
    i: int,
    mean: TensorValue,
)
    requires
        before.has_averaged(global, after, stepped, locals, global.len() as int),
        before.lr() == ONE,
        before.mu() == 0,
        0 <= i < global.len(),
        local_mean(locals, global[i].0) == Ok::<TensorValue, Fault>(mean),
        before.momentum()[global[i].0].element == global[i].1.element,
        before.momentum()[global[i].0].numeric().all_finite(),
        difference(global[i].1.numeric(), mean).all_finite(),
        difference(
            global[i].1.numeric(),
            difference(global[i].1.numeric(), mean).unsigned_zeros(),
        ) == mean,
    ensures
        stepped[i].1.numeric() == mean,
        locals.len() == 1 ==> stepped[i].1.numeric()
            == locals[0][global[i].0].numeric().unsigned_zeros(),
        after.momentum()[global[i].0].numeric().all_finite(),
{
    let name = global[i].0;
    let delta = difference(global[i].1.numeric(), mean);
    let kept = after.momentum()[name].numeric();
    assert(stepped[i].1.numeric() == mean);
    assert forall|k: int| 0 <= k < kept.bits.len() implies is_finite(
        kept.element,
        #[trigger] kept.bits[k],
    ) by {
        assert(is_finite(delta.element, delta.bits[k]));
    }
}

/// What each worker sent for element `i` of the parameter called `name`, as an integer number
/// of some unit.
pub open spec fn contributions(
    locals: Seq<Map<Seq<char>, TensorValue>>,
    name: Seq<char>,
    i: int,
    units: spec_fn(u64) -> int,
) -> Seq<int> {
    locals.map_values(|sent: Map<Seq<char>, TensorValue>| units(sent[name].numeric().bits[i]))
}

/// The sum of a sequence of integers.
pub open spec fn total(xs: Seq<int>) -> int {
    xs.fold_left(0, |a: int, x: int| a + x)
}

/// The sum over all workers is exact: in some unit, each element is what the workers'
/// contributions add up to.
pub open spec fn sums_exactly(
    locals: Seq<Map<Seq<char>, TensorValue>>,
    name: Seq<char>,
    units: spec_fn(u64) -> int,
) -> bool {
    local_sum(locals, name, locals.len()) matches Ok(sum) && forall|i: int|
        0 <= i < sum.bits.len() ==> units(#[trigger] sum.bits[i]) == total(
            contributions(locals, name, i, units),
        )
}

/// The order of the workers does not matter where rounding does not: two orders of the same
/// workers in which the sum is exact lead to the same parameter and momentum.
pub proof fn law_worker_order_does_not_matter(
    theta: TensorValue,
    m: TensorValue,
    locals: Seq<Map<Seq<char>, TensorValue>>,
    others: Seq<Map<Seq<char>, TensorValue>>,
    name: Seq<char>,
    lr: u64,
    mu: u64,
    units: spec_fn(u64) -> int,
)
    requires
        locals.len() > 0,
        locals.to_multiset() == others.to_multiset(),
        forall|w: int|
            0 <= w < locals.len() ==> (#[trigger] locals[w])[name].element == locals[0][name].element
                && locals[w][name].dims == locals[0][name].dims && is_full(locals[w][name]),
        sums_exactly(locals, name, units),
        sums_exactly(others, name, units),
        forall|a: u64, b: u64| #[trigger] units(a) == #[trigger] units(b) ==> a == b,
    ensures
        outer_update(theta, m, others, name, lr, mu) == outer_update(
            theta,
            m,
            locals,
            name,
            lr,
            mu,
        ),
{
    broadcast use vstd::seq_lib::group_to_multiset_ensures;

    assert(locals.to_multiset().len() == locals.len());
    assert(others.to_multiset().len() == others.len());
    assert(others.to_multiset().contains(others[0]));
    let w = locals.index_of(others[0]);
    assert(locals[w] == others[0]);
    assert(locals[w][name].element == locals[0][name].element);
    assert(is_full(locals[0][name]));
    lemma_sum_shape(locals, name, locals.len());
    lemma_sum_shape(others, name, others.len());
    let left = local_sum(locals, name, locals.len())->Ok_0;
    let right = local_sum(others, name, others.len())->Ok_0;
    assert forall|i: int| 0 <= i < left.bits.len() implies left.bits[i] == right.bits[i] by {
        let f = |a: int, x: Map<Seq<char>, TensorValue>| a + units(x[name].numeric().bits[i]);
        vstd::seq_lib::lemma_fold_left_permutation(locals, others, f, 0);
        lemma_total_as_fold(locals, name, i, units);
        lemma_total_as_fold(others, name, i, units);
        assert(units(left.bits[i]) == units(right.bits[i]));
    }
    assert(left =~= right);
}

/// A sum has the shape of the first worker's tensor.
proof fn lemma_sum_shape(locals: Seq<Map<Seq<char>, TensorValue>>, name: Seq<char>, count: nat)
    requires
        1 <= count <= locals.len(),
        local_sum(locals, name, count) is Ok,
    ensures
        local_sum(locals, name, count)->Ok_0.element == locals[0][name].element,
        local_sum(locals, name, count)->Ok_0.dims == locals[0][name].dims,
        local_sum(locals, name, count)->Ok_0.bits.len() == locals[0][name].bits.len(),
    decreases count,
{
    if count > 1 {
        lemma_sum_shape(locals, name, (count - 1) as nat);
    }
}

/// The contributions add up worker by worker.
proof fn lemma_total_as_fold(
    locals: Seq<Map<Seq<char>, TensorValue>>,
    name: Seq<char>,
    i: int,
    units: spec_fn(u64) -> int,
)
    ensures
        total(contributions(locals, name, i, units)) == locals.fold_left(
            0,
            |a: int, x: Map<Seq<char>, TensorValue>| a + units(x[name].numeric().bits[i]),
        ),
    decreases locals.len(),
{
    reveal_with_fuel(Seq::fold_left, 2);
    let all = contributions(locals, name, i, units);
    if locals.len() > 0 {
        let rest = locals.drop_last();
        assert(contributions(rest, name, i, units) =~= all.drop_last());
        lemma_total_as_fold(rest, name, i, units);
    }
}

/// Plain averaging, counted out: with a learning rate of 1 and no momentum, and where sum,
/// mean and differences are exact, each element of a parameter becomes what the workers'
/// contributions add up to, divided by their number.
pub proof fn law_plain_average_is_the_mean(
    before: OuterOptimizer,
    global: Seq<(Seq<char>, TensorValue)>,
    after: OuterOptimizer,
    stepped: Seq<(Seq<char>, TensorValue)>,
    locals: Seq<Map<Seq<char>, TensorValue>>,
    i: int,
    mean: TensorValue,
    units: spec_fn(u64) -> int,
    e: int,
)
    requires
        before.has_averaged(global, after, stepped, locals, global.len() as int),
        before.lr() == ONE,
        before.mu() == 0,
        0 <= i < global.len(),
        local_mean(locals, global[i].0) == Ok::<TensorValue, Fault>(mean),
        before.momentum()[global[i].0].element == global[i].1.element,
        before.momentum()[global[i].0].numeric().all_finite(),
        difference(global[i].1.numeric(), mean).all_finite(),
        difference(
            global[i].1.numeric(),
            difference(global[i].1.numeric(), mean).unsigned_zeros(),
        ) == mean,
        0 <= e < mean.bits.len(),
        sums_exactly(locals, global[i].0, units),
        locals.len() * units(mean.bits[e]) == units(
            local_sum(locals, global[i].0, locals.len())->Ok_0.bits[e],
        ),
    ensures
        locals.len() * units(stepped[i].1.numeric().bits[e]) == total(
            contributions(locals, global[i].0, e, units),
        ),
{
    law_plain_averaging(before, global, after, stepped, locals, i, mean);
}

/// The numbers that the workers sent for element `e` of the parameter called `name`.
pub open spec fn sent_numbers(
    locals: Seq<Map<Seq<char>, TensorValue>>,
    name: Seq<char>,
    e: int,
) -> Seq<u64> {
    locals.map_values(|sent: Map<Seq<char>, TensorValue>| sent[name].numeric().bits[e])
}

/// All workers sent tensors called `name` with all their elements.
pub open spec fn all_sent_in_full(
    locals: Seq<Map<Seq<char>, TensorValue>>,
    name: Seq<char>,
) -> bool {
    forall|w: int| 0 <= w < locals.len() ==> is_full((#[trigger] locals[w])[name])
}

/// The sum over the first workers is added up element by element, one worker after the other,
/// from the first to the last of them.
pub proof fn law_sum_adds_up_in_order(
    locals: Seq<Map<Seq<char>, TensorValue>>,
    name: Seq<char>,
    count: nat,
    e: int,
)
    requires
        1 <= count <= locals.len(),
        local_sum(locals, name, count) is Ok,
        0 <= e < locals[0][name].bits.len(),
    ensures
        local_sum(locals, name, count)->Ok_0.bits[e] == chain(
            locals[0][name].element,
            sent_numbers(locals, name, e).take(count as int),
        ),
    decreases count,
{
    let xs = sent_numbers(locals, name, e).take(count as int);
    let element = locals[0][name].element;
    if count == 1 {
        lemma_chain_of_one(element, xs);
    } else {
        law_sum_adds_up_in_order(locals, name, (count - 1) as nat, e);
        lemma_sum_shape(locals, name, (count - 1) as nat);
        assert(xs.drop_last() =~= sent_numbers(locals, name, e).take(count - 1));
        lemma_chain_grows(element, xs);
    }
}

/// Every worker counts once in the mean: each element is the chain of what all workers sent
/// for it, times the reciprocal of their number.
pub proof fn law_mean_takes_in_every_worker(
    locals: Seq<Map<Seq<char>, TensorValue>>,
    name: Seq<char>,
    mean: TensorValue,
    e: int,
)
    requires
        locals.len() > 0,
        local_mean(locals, name) == Ok::<TensorValue, Fault>(mean),
        0 <= e < locals[0][name].bits.len(),
    ensures
        mean.element == locals[0][name].element,
        mean.dims == locals[0][name].dims,
        mean.bits.len() == locals[0][name].bits.len(),
        mean.bits[e] == number_scaled(
            mean.element,
            chain(mean.element, sent_numbers(locals, name, e)),
            number(
                ElementType::F64,
                number_reciprocal(ElementType::F64, count_bits(locals.len() as usize)),
            ),
        ),
{
    lemma_sum_shape(locals, name, locals.len());
    law_sum_adds_up_in_order(locals, name, locals.len(), e);
    let xs = sent_numbers(locals, name, e);
    assert(xs.take(locals.len() as int) =~= xs);
}

/// Wherever the additions are exact, the sum over the workers is what all of them sent added
/// up, each once; and where the division by the number of workers is exact too, that number
/// times the mean is.
pub proof fn law_every_worker_counts_once(
    locals: Seq<Map<Seq<char>, TensorValue>>,
    name: Seq<char>,
    e: int,
    units: spec_fn(u64) -> int,
    bound: int,
)
    requires
        locals.len() > 0,
        local_sum(locals, name, locals.len()) is Ok,
        0 <= e < locals[0][name].bits.len(),
        exact_up_to(locals[0][name].element, units, bound),
        total(magnitudes(sent_numbers(locals, name, e), units)) <= bound,
    ensures
        units(local_sum(locals, name, locals.len())->Ok_0.bits[e]) == total(
            in_units(sent_numbers(locals, name, e), units),
        ),
        ({
            let n = locals.len() as int;
            let all = total(in_units(sent_numbers(locals, name, e), units));
            let share = number(
                ElementType::F64,
                number_reciprocal(ElementType::F64, count_bits(locals.len() as usize)),
            );
            let divides = forall|x: u64|
                units(x) % n == 0 ==> n * units(
                    #[trigger] number_scaled(locals[0][name].element, x, share),
                ) == units(x);
            divides && all % n == 0 ==> n * units(local_mean(locals, name)->Ok_0.bits[e]) == all
        }),
{
    let xs = sent_numbers(locals, name, e);
    law_mean_takes_in_every_worker(locals, name, local_mean(locals, name)->Ok_0, e);
    law_sum_adds_up_in_order(locals, name, locals.len(), e);
    assert(xs.take(locals.len() as int) =~= xs);
    law_chain_counts_every_number_once(locals[0][name].element, xs, units, bound);
}

/// The outer step, number by number, for every parameter whatever its dimensions: the
/// momentum decays and takes in the pseudo-gradient, which is the parameter less the mean of
/// what all workers sent; and the parameter moves against the pseudo-gradient and the new
/// momentum ahead of it.
pub proof fn law_step_number_by_number(
    before: OuterOptimizer,
    global: Seq<(Seq<char>, TensorValue)>,
    after: OuterOptimizer,
    stepped: Seq<(Seq<char>, TensorValue)>,
    locals: Seq<Map<Seq<char>, TensorValue>>,
    i: int,
    e: int,
)
    requires
        before.has_stepped(global, after, stepped, locals, global.len() as int),
        locals.len() > 0,
        0 <= i < global.len(),
        is_full(global[i].1),
        is_full(before.momentum()[global[i].0]),
        all_sent_in_full(locals, global[i].0),
        0 <= e < global[i].1.bits.len(),
    ensures
        ({
            let name = global[i].0;
            let m = before.momentum()[name];
            let element = global[i].1.element;
            let rate = number(ElementType::F64, before.lr());
            let decay = number(ElementType::F64, before.mu());
            let share = number(
                ElementType::F64,
                number_reciprocal(ElementType::F64, count_bits(locals.len() as usize)),
            );
            let theta = number(element, global[i].1.bits[e]);
            let mean = number_scaled(
                locals[0][name].element,
                chain(locals[0][name].element, sent_numbers(locals, name, e)),
                share,
            );
            let gradient = number_difference(element, theta, mean);
            let next_m = number_sum(
                m.element,
                number_scaled(m.element, number(m.element, m.bits[e]), decay),
                gradient,
            );
            let ahead = number_sum(element, gradient, number_scaled(m.element, next_m, decay));
            &&& number(m.element, after.momentum()[name].bits[e]) == next_m
            &&& number(element, stepped[i].1.bits[e]) == number_difference(
                element,
                theta,
                number_scaled(element, ahead, rate),
            )
            &&& stepped[i].0 == name
            &&& stepped[i].1.dims == global[i].1.dims
            &&& stepped[i].1.element == element
            &&& stepped[i].1.bits.len() == global[i].1.bits.len()
        }),
{
    let name = global[i].0;
    let m = before.momentum()[name];
    let theta = global[i].1;
    assert(stepped[i].0 == name);
    let mean = local_mean(locals, name)->Ok_0;
    assert(local_mean(locals, name) is Ok);
    lemma_sum_shape(locals, name, locals.len());
    assert(is_full(locals[0][name]));
    assert(mean.dims == locals[0][name].dims);
    assert(theta.accepts(mean));
    assert(m.bits.len() == theta.bits.len());
    law_mean_takes_in_every_worker(locals, name, mean, e);
    let result = (stepped[i].1.numeric(), after.momentum()[name].numeric());
    assert(result.1.bits.len() == m.bits.len());
    assert(result.0.bits.len() == theta.bits.len());
    assert(result.1.bits[e] == number(result.1.element, after.momentum()[name].bits[e]));
    assert(result.0.bits[e] == number(result.0.element, stepped[i].1.bits[e]));
}

/// A tensor of the same elements with other dimensions.
pub open spec fn with_dims(t: TensorValue, dims: Seq<usize>) -> TensorValue {
    TensorValue { element: t.element, dims, bits: t.bits }
}

/// The workers' parameters with the one called `name` given other dimensions.
pub open spec fn all_with_dims(
    locals: Seq<Map<Seq<char>, TensorValue>>,
    name: Seq<char>,
    dims: Seq<usize>,
) -> Seq<Map<Seq<char>, TensorValue>> {
    locals.map_values(
        |sent: Map<Seq<char>, TensorValue>| sent.insert(name, with_dims(sent[name], dims)),
    )
}

/// The outer step does not look at dimensions: stepping a parameter whose tensors have been
/// laid out otherwise gives the same parameter and momentum, laid out otherwise.
pub proof fn law_step_commutes_with_reshaping(
    theta: TensorValue,
    m: TensorValue,
    locals: Seq<Map<Seq<char>, TensorValue>>,
    name: Seq<char>,
    lr: u64,
    mu: u64,
    dims: Seq<usize>,
)
    requires
        locals.len() > 0,
        forall|w: int|
            0 <= w < locals.len() ==> (#[trigger] locals[w]).contains_key(name)
                && locals[w][name].dims == theta.dims,
        m.dims == theta.dims,
        theta.dims.contains(0usize) == dims.contains(0usize),
    ensures
        match outer_update(theta, m, locals, name, lr, mu) {
            Ok(next) => outer_update(
                with_dims(theta, dims),
                with_dims(m, dims),
                all_with_dims(locals, name, dims),
                name,
                lr,
                mu,
            ) == Ok::<(TensorValue, TensorValue), Fault>(
                (with_dims(next.0, dims), with_dims(next.1, dims)),
            ),
            Err(fault) => outer_update(
                with_dims(theta, dims),
                with_dims(m, dims),
                all_with_dims(locals, name, dims),
                name,
                lr,
                mu,
            ) == Err::<(TensorValue, TensorValue), Fault>(fault),
        },
{
    lemma_sum_of_reshaped(locals, name, locals.len(), theta.dims, dims);
    let others = all_with_dims(locals, name, dims);
    let left = outer_update(theta, m, locals, name, lr, mu);
    let right = outer_update(with_dims(theta, dims), with_dims(m, dims), others, name, lr, mu);
    if local_sum(locals, name, locals.len()) is Ok {
        lemma_sum_shape(locals, name, locals.len());
        assert(locals[0][name].dims == theta.dims);
        let mean = local_mean(locals, name)->Ok_0;
        let other = local_mean(others, name)->Ok_0;
        assert(other =~= with_dims(mean, dims));
        if left is Ok {
            assert(right is Ok);
            assert(right->Ok_0.1 =~= with_dims(left->Ok_0.1, dims));
            assert(right->Ok_0.0 =~= with_dims(left->Ok_0.0, dims));
        }
    }
}

/// The sum does not look at dimensions.
proof fn lemma_sum_of_reshaped(
    locals: Seq<Map<Seq<char>, TensorValue>>,
    name: Seq<char>,
    count: nat,
    old_dims: Seq<usize>,
    dims: Seq<usize>,
)
    requires
        1 <= count <= locals.len(),
        forall|w: int|
            0 <= w < locals.len() ==> (#[trigger] locals[w]).contains_key(name)
                && locals[w][name].dims == old_dims,
        old_dims.contains(0usize) == dims.contains(0usize),
    ensures
        match local_sum(locals, name, count) {
            Ok(sum) => sum.dims == old_dims && local_sum(
                all_with_dims(locals, name, dims),
                name,
                count,
            ) == Ok::<TensorValue, Fault>(with_dims(sum, dims)),
            Err(fault) => local_sum(all_with_dims(locals, name, dims), name, count) == Err::<
                TensorValue,
                Fault,
            >(fault),
        },
    decreases count,
{
    let others = all_with_dims(locals, name, dims);
    let worker = count - 1;
    assert(locals[worker].contains_key(name));
    assert(others[worker][name] == with_dims(locals[worker][name], dims));
    assert(others[worker][name].numeric() =~= with_dims(locals[worker][name].numeric(), dims));
    if count > 1 {
        lemma_sum_of_reshaped(locals, name, (count - 1) as nat, old_dims, dims);
        if local_sum(locals, name, (count - 1) as nat) is Ok {
            let before = local_sum(locals, name, (count - 1) as nat)->Ok_0;
            assert(sum(with_dims(before, dims), others[worker][name].numeric()) =~= with_dims(
                sum(before, locals[worker][name].numeric()),
                dims,
            ));
        }
    }
}

/// What worker `w` sent under `name` can be added to what the first worker sent.
pub open spec fn sent_alike(
    locals: Seq<Map<Seq<char>, TensorValue>>,
    name: Seq<char>,
    w: int,
) -> bool {
    let first = locals[0][name];
    let sent = locals[w][name];
    &&& locals[w].contains_key(name)
    &&& sent.dims == first.dims
    &&& sent.element == first.element || first.dims.contains(0usize)
    &&& w == 0 ==> first.element == ElementType::F32 || first.element == ElementType::F64
        || first.dims.contains(0usize)
}

/// Workers that sent alike can be summed.
proof fn lemma_alike_is_summed(
    locals: Seq<Map<Seq<char>, TensorValue>>,
    name: Seq<char>,
    count: nat,
)
    requires
        1 <= count <= locals.len(),
        forall|w: int| 0 <= w < count ==> #[trigger] sent_alike(locals, name, w),
    ensures
        local_sum(locals, name, count) is Ok,
    decreases count,
{
    assert(sent_alike(locals, name, 0));
    if count > 1 {
        lemma_alike_is_summed(locals, name, (count - 1) as nat);
        lemma_sum_shape(locals, name, (count - 1) as nat);
        assert(sent_alike(locals, name, count - 1));
    }
}

/// The first worker in trouble decides: a parameter that it did not send is missing; one that
/// the first worker sent without floating-point numbers of full precision cannot be summed; and
/// one that does not go with what the first worker sent does not fit. Without such a worker
/// there is a mean.
pub proof fn law_first_worker_in_trouble_decides(
    locals: Seq<Map<Seq<char>, TensorValue>>,
    name: Seq<char>,
    w: int,
)
    requires
        0 <= w < locals.len(),
        forall|v: int| 0 <= v < w ==> #[trigger] sent_alike(locals, name, v),
    ensures
        !locals[w].contains_key(name) ==> local_mean(locals, name) == Err::<TensorValue, Fault>(
            Fault::Missing(w),
        ),
        locals[w].contains_key(name) && !sent_alike(locals, name, w) ==> local_mean(locals, name)
            == Err::<TensorValue, Fault>(
            if w == 0 {
                Fault::NotSummable
            } else {
                Fault::Mismatch
            },
        ),
        w == locals.len() - 1 && sent_alike(locals, name, w) ==> local_mean(locals, name) is Ok,
{
    if w > 0 {
        lemma_alike_is_summed(locals, name, w as nat);
        lemma_sum_shape(locals, name, w as nat);
    }
    if !sent_alike(locals, name, w) {
        lemma_fault_stays(locals, name, (w + 1) as nat);
    }
}

/// A parameter is stepped just where there is a mean of what the workers sent, and the
/// parameter, the mean and the momentum have the same dimensions and element types; an empty
/// one has no elements that could differ.
pub proof fn law_which_parameters_are_stepped(
    theta: TensorValue,
    m: TensorValue,
    locals: Seq<Map<Seq<char>, TensorValue>>,
    name: Seq<char>,
    lr: u64,
    mu: u64,
)
    requires
        locals.len() > 0,
    ensures
        ({
            let first = locals[0][name];
            let goes = |a: TensorValue, b: TensorValue|
                a.dims == b.dims && (a.element == b.element || a.dims.contains(0usize));
            let update = outer_update(theta, m, locals, name, lr, mu);
            &&& local_mean(locals, name) matches Err(fault) ==> update == Err::<
                (TensorValue, TensorValue),
                Fault,
            >(fault)
            &&& local_mean(locals, name) is Ok ==> {
                &&& update is Ok <==> goes(theta, first) && goes(m, theta)
                &&& update is Err ==> update == Err::<(TensorValue, TensorValue), Fault>(
                    Fault::Mismatch,
                )
            }
        }),
{
    if local_mean(locals, name) is Ok {
        lemma_sum_shape(locals, name, locals.len());
    }
}

/// An error tells what is wrong, with which parameter, and whose it is where a worker did not
/// send it.
pub proof fn law_errors_tell_the_fault(e: StepError, fault: Fault, name: Seq<char>)
    requires
        e.reports(fault, name),
    ensures
        fault is Missing <==> e is MissingParam,
        fault is NotSummable <==> e is ElementType,
        fault is Mismatch <==> e is Tensor,
        e matches StepError::MissingParam { worker, name: n } ==> fault == Fault::Missing(
            worker as int,
        ) && n@ == name,
        e matches StepError::ElementType { name: n } ==> n@ == name,
        e matches StepError::Tensor { name: n, .. } ==> n@ == name,
{
}

/// What an outer step makes of the parameter in place `i`.
pub open spec fn update_at(
    before: OuterOptimizer,
    params: Seq<(Seq<char>, TensorValue)>,
    locals: Seq<Map<Seq<char>, TensorValue>>,
    i: int,
) -> Result<(TensorValue, TensorValue), Fault> {
    outer_update(
        params[i].1,
        before.momentum()[params[i].0],
        locals,
        params[i].0,
        before.lr(),
        before.mu(),
    )
}

/// A step that fails stops at the first parameter that cannot be stepped and reports it: those
/// before it have been stepped, and it and all behind it are as they were, in their values and
/// in their momentum. Without workers nothing changes.
pub proof fn law_failed_step_stops_at_the_first_fault(
    before: OuterOptimizer,
    global: ParamMap,
    after: OuterOptimizer,
    stepped: ParamMap,
    locals: Seq<Map<Seq<char>, TensorValue>>,
    e: StepError,
)
    requires
        before.stops(global, after, stepped, locals, e),
    ensures
        locals.len() == 0 ==> e is NoWorkers && after == before && stepped == global,
        locals.len() > 0 ==> !(e is NoWorkers),
        locals.len() > 0 ==> exists|k: int|
            {
                &&& 0 <= k < global.entries().len()
                &&& #[trigger] update_at(before, global.entries(), locals, k) is Err
                &&& e.reports(
                    update_at(before, global.entries(), locals, k)->Err_0,
                    global.entries()[k].0,
                )
                &&& forall|i: int|
                    0 <= i < k ==> (#[trigger] update_at(before, global.entries(), locals, i)) == Ok::<
                        (TensorValue, TensorValue),
                        Fault,
                    >(
                        (
                            stepped.entries()[i].1.numeric(),
                            after.momentum()[global.entries()[i].0].numeric(),
                        ),
                    )
                &&& forall|i: int|
                    k <= i < global.entries().len() ==> #[trigger] stepped.entries()[i]
                        == global.entries()[i]
                &&& forall|name: Seq<char>|
                    before.momentum().contains_key(name) && (forall|i: int|
                        0 <= i < k ==> (#[trigger] global.entries()[i]).0 != name)
                        ==> #[trigger] after.momentum()[name] == before.momentum()[name]
            },
{
    if locals.len() > 0 {
        let params = global.entries();
        let k = choose|k: int|
            0 <= k < params.len() && #[trigger] before.has_stepped(
                params,
                after,
                stepped.entries(),
                locals,
                k,
            ) && before.fails_on(params, locals, k, e);
        assert(update_at(before, params, locals, k) is Err);
        assert forall|i: int| 0 <= i < k implies (#[trigger] update_at(before, params, locals, i))
            == Ok::<(TensorValue, TensorValue), Fault>(
            (stepped.entries()[i].1.numeric(), after.momentum()[params[i].0].numeric()),
        ) by {
            assert(stepped.entries()[i].0 == params[i].0);
        }
    }
}

/// A run of `n` outer steps over the same parameters: from state `k` the `k`-th step leads to
/// the next.
pub struct OuterRun {
    pub states: Seq<OuterOptimizer>,
    pub params: Seq<Seq<(Seq<char>, TensorValue)>>,
    pub locals: Seq<Seq<Map<Seq<char>, TensorValue>>>,
}

impl OuterRun {
    /// Step `k` has been carried out on parameter `i`, with all its elements.
    pub open spec fn leads_on(self, k: int, i: int) -> bool {
        let (name, theta) = self.params[k][i];
        &&& self.states[k].has_stepped(
            self.params[k],
            self.states[k + 1],
            self.params[k + 1],
            self.locals[k],
            self.params[k].len() as int,
        )
        &&& self.locals[k].len() > 0
        &&& is_full(theta)
        &&& is_full(self.states[k].momentum()[name])
        &&& all_sent_in_full(self.locals[k], name)
    }

    /// The pseudo-gradient of element `e` of parameter `i` in step `k`: the parameter less the
    /// mean of what all workers sent.
    pub open spec fn gradient(self, k: int, i: int, e: int) -> u64 {
        let (name, theta) = self.params[k][i];
        let first = self.locals[k][0][name].element;
        number_difference(
            theta.element,
            number(theta.element, theta.bits[e]),
            number_scaled(
                first,
                chain(first, sent_numbers(self.locals[k], name, e)),
                number(
                    ElementType::F64,
                    number_reciprocal(
                        ElementType::F64,
                        count_bits(self.locals[k].len() as usize),
                    ),
                ),
            ),
        )
    }

    /// The pseudo-gradients of the first `n` steps.
    pub open spec fn gradients(self, n: nat, i: int, e: int) -> Seq<u64> {
        Seq::new(n, |k: int| self.gradient(k, i, e))
    }

    /// The momentum of element `e` of parameter `i` before step `k`, in units.
    pub open spec fn momentum_in(
        self,
        k: int,
        i: int,
        e: int,
        units: spec_fn(u64) -> int,
    ) -> int {
        let m = self.states[k].momentum()[self.params[0][i].0];
        units(number(m.element, m.bits[e]))
    }
}

/// Momentum that does not decay adds up: where the momentum coefficient leaves a number as it
/// is, as 1 does, and additions are exact, the momentum after any number of steps is what it
/// was in the beginning plus all pseudo-gradients, each once, whatever the dimensions of the
/// parameter.
pub proof fn law_momentum_adds_up(
    run: OuterRun,
    n: nat,
    i: int,
    e: int,
    units: spec_fn(u64) -> int,
    bound: int,
)
    requires
        forall|k: int| 0 <= k < n ==> #[trigger] run.leads_on(k, i),
        0 <= i < run.params[0].len(),
        0 <= e < run.params[0][i].1.bits.len(),
        ({
            let m = run.states[0].momentum()[run.params[0][i].0];
            let decay = number(ElementType::F64, run.states[0].mu());
            &&& exact_up_to(m.element, units, bound)
            &&& forall|x: u64| units(#[trigger] number_scaled(m.element, x, decay)) == units(x)
        }),
        magnitude(run.momentum_in(0, i, e, units)) + total(
            magnitudes(run.gradients(n, i, e), units),
        ) <= bound,
    ensures
        run.momentum_in(n as int, i, e, units) == run.momentum_in(0, i, e, units) + total(
            in_units(run.gradients(n, i, e), units),
        ),
        magnitude(run.momentum_in(n as int, i, e, units)) <= magnitude(
            run.momentum_in(0, i, e, units),
        ) + total(magnitudes(run.gradients(n, i, e), units)),
        n > 0 ==> lasts(run, n as int, i, e),
    decreases n,
{
    let all = run.gradients(n, i, e);
    if n == 0 {
        reveal_with_fuel(Seq::fold_left, 2);
        assert(in_units(all, units).len() == 0);
        assert(magnitudes(all, units).len() == 0);
    } else {
        let rest = run.gradients((n - 1) as nat, i, e);
        let last = n - 1;
        assert(all.drop_last() =~= rest);
        assert(in_units(all, units).drop_last() =~= in_units(rest, units));
        assert(magnitudes(all, units).drop_last() =~= magnitudes(rest, units));
        lemma_total_grows(in_units(all, units));
        lemma_total_grows(magnitudes(all, units));
        law_momentum_adds_up(run, (n - 1) as nat, i, e, units, bound);
        assert(run.leads_on(last, i));
        law_step_number_by_number(
            run.states[last],
            run.params[last],
            run.states[last + 1],
            run.params[last + 1],
            run.locals[last],
            i,
            e,
        );
        lemma_momentum_element(run, last, i);
    }
}

/// The parameter in place `i`, its size and its momentum's element type are the same before
/// step `k` as in the beginning, and so is the momentum coefficient.
pub open spec fn lasts(run: OuterRun, k: int, i: int, e: int) -> bool {
    let name = run.params[0][i].0;
    &&& run.params[k].len() == run.params[0].len()
    &&& run.params[k][i].0 == name
    &&& e < run.params[k][i].1.bits.len()
    &&& run.states[k].mu() == run.states[0].mu()
    &&& run.states[k].momentum()[name].element == run.states[0].momentum()[name].element
}

/// A step keeps the element type of the momentum.
proof fn lemma_momentum_element(run: OuterRun, k: int, i: int)
    requires
        run.leads_on(k, i),
        0 <= i < run.params[k].len(),
    ensures
        run.states[k + 1].momentum()[run.params[k][i].0].element
            == run.states[k].momentum()[run.params[k][i].0].element,
{
    assert(run.params[k + 1][i].0 == run.params[k][i].0);
}

/// Every worker's parameters are looked at, in order.
pub proof fn law_every_worker_is_looked_at(locals: Seq<ParamMap>, w: int)
    requires
        0 <= w < locals.len(),
    ensures
        views(locals).len() == locals.len(),
        views(locals)[w] == locals[w]@,
{
}

} // verus!
