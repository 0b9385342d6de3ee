//! Deterministic held-out evaluation, shared by the DiLoCo workers and the synchronous
//! baseline so the two runs are compared on exactly the same metric. Unlike training,
//! this uses no random numbers: it walks fixed, non-overlapping windows over the
//! validation tokens, so what is evaluated depends only on the validation set.
use crate::layers::{has_row, numbers};
use crate::model::law_heads_tile_the_embedding;
use crate::tensor::{
    add_tensors, convert_scalar, count_bits, count_scalar, divide_scalars, is_scalar,
    multiply_scalars, number, number_converted, number_product, number_quotient, number_sum, scalar,
    single_bits, value, ElementType, TensorValue,
};
use crate::transformer::{lift, GptModel, ModelError, Network};
use crate::windows::{fit, is_batch, lemma_consecutive, window_batch};
use candle_core::Tensor;
use vstd::arithmetic::div_mod::{lemma_fundamental_div_mod, lemma_fundamental_div_mod_converse};
use vstd::prelude::*;

verus! {

/// The number of back-to-back windows of `block_size` tokens that fit into `num_tokens`,
/// leaving room for the target of the last token.
pub open spec fn windows_that_fit(num_tokens: int, block_size: int) -> int {
    if num_tokens > block_size {
        (num_tokens - 1) / block_size
    } else {
        0
    }
}

/// The number of windows to evaluate: as many as fit, or as `max_batches` batches take,
/// where 0 stands for no limit.
pub open spec fn windows_to_evaluate(
    num_tokens: int,
    block_size: int,
    batch_size: int,
    max_batches: int,
) -> int {
    let fitting = windows_that_fit(num_tokens, block_size);
    if max_batches == 0 || fitting <= max_batches * batch_size {
        fitting
    } else {
        max_batches * batch_size
    }
}

/// Where `count` windows begin, from the window numbered `from` on.
pub open spec fn window_starts(from: int, count: int, block_size: int) -> Seq<usize> {
    Seq::new(count as nat, |i: int| ((from + i) * block_size) as usize)
}

/// One batch of validation windows.
pub struct EvalBatch {
    pub inputs: Tensor,
    pub targets: Tensor,
    /// The number of tokens that are predicted, by which the batch's mean loss is weighted.
    pub tokens: usize,
}

/// A pass over the validation set: which windows have been evaluated and which have not.
pub struct Evaluation {
    num_tokens: usize,
    block_size: usize,
    batch_size: usize,
    n_windows: usize,
    window: usize,
}

impl Evaluation {
    pub closed spec fn num_tokens(self) -> int {
        self.num_tokens as int
    }

    pub closed spec fn block_size(self) -> int {
        self.block_size as int
    }

    pub closed spec fn batch_size(self) -> int {
        self.batch_size as int
    }

    /// The number of windows to evaluate.
    pub closed spec fn n_windows(self) -> int {
        self.n_windows as int
    }

    /// The number of windows that have been handed out.
    pub closed spec fn done(self) -> int {
        self.window as int
    }

    /// All windows fit, and there is a batch for as long as there are windows left.
    pub open spec fn wf(self) -> bool {
        &&& 0 < self.block_size() < self.num_tokens() <= usize::MAX
        &&& 0 <= self.done() <= self.n_windows()
        &&& self.n_windows() <= windows_that_fit(self.num_tokens(), self.block_size())
        &&& self.n_windows() > 0 ==> 0 < self.batch_size() <= usize::MAX
        &&& 0 <= self.batch_size() <= usize::MAX
    }

    /// The number of windows in the next batch.
    pub open spec fn next_size(self) -> int {
        if self.n_windows() - self.done() < self.batch_size() {
            self.n_windows() - self.done()
        } else {
            self.batch_size()
        }
    }

    /// Begin a pass over a validation set of `num_tokens` tokens, in batches of
    /// `batch_size` windows of `block_size` tokens. `max_batches` caps how many batches
    /// are evaluated, 0 meaning every window. There is no pass, and no loss, if the
    /// validation set is too short to form a single window.
    pub fn new(
        num_tokens: usize,
        block_size: usize,
        batch_size: usize,
        max_batches: usize,
    ) -> (pass: Option<Evaluation>)
        requires
            block_size > 0 || num_tokens == 0,
            num_tokens > block_size ==> (batch_size > 0 || max_batches > 0),
            num_tokens > block_size ==> max_batches * batch_size <= usize::MAX,
        ensures
            pass is Some <==> num_tokens > block_size,
            pass matches Some(p) ==> {
                &&& p.wf()
                &&& p.num_tokens() == num_tokens
                &&& p.block_size() == block_size
                &&& p.batch_size() == batch_size
                &&& p.done() == 0
                &&& p.n_windows() == windows_to_evaluate(
                    num_tokens as int,
                    block_size as int,
                    batch_size as int,
                    max_batches as int,
                )
            },
    {
        if num_tokens <= block_size {
            return None;
        }
        let fitting = (num_tokens - 1) / block_size;
        let mut n_windows = fitting;
        if max_batches != 0 && max_batches * batch_size < fitting {
            n_windows = max_batches * batch_size;
        }
        proof {
            assert(max_batches * 0 == 0) by (nonlinear_arith);
        }
        Some(Evaluation { num_tokens, block_size, batch_size, n_windows, window: 0 })
    }

    /// The number of tokens predicted by the batches handed out so far: what the sum of
    /// the weighted losses is divided by.
    pub fn evaluated_tokens(&self) -> (n: usize)
        requires
            self.wf(),
        ensures
            n == self.done() * self.block_size(),
    {
        proof {
            lemma_windows_fit(*self, self.done());
        }
        self.window * self.block_size
    }

    /// The next batch of windows of `val_tokens`, or nothing when all have been evaluated.
    /// The last batch may be short.
    pub fn next_batch(&mut self, val_tokens: &[u32]) -> (batch: Result<
        Option<EvalBatch>,
        candle_core::Error,
    >)
        requires
            old(self).wf(),
            val_tokens@.len() == old(self).num_tokens(),
        ensures
            final(self).wf(),
            final(self).num_tokens() == old(self).num_tokens(),
            final(self).block_size() == old(self).block_size(),
            final(self).batch_size() == old(self).batch_size(),
            final(self).n_windows() == old(self).n_windows(),
            final(self).done() == old(self).done() + old(self).next_size(),
            batch matches Ok(next) && match next {
                None => old(self).done() == old(self).n_windows(),
                Some(b) => {
                    &&& old(self).done() < old(self).n_windows()
                    &&& is_batch(
                        b.inputs,
                        b.targets,
                        val_tokens@,
                        window_starts(old(self).done(), old(self).next_size(), old(self).block_size()),
                        old(self).block_size(),
                    )
                    &&& b.tokens == old(self).next_size() * old(self).block_size()
                },
            },
    {
        if self.window >= self.n_windows {
            return Ok(None);
        }
        let mut size = self.batch_size;
        if self.n_windows - self.window < size {
            size = self.n_windows - self.window;
        }
        let ghost from = self.done();
        let mut starts: Vec<usize> = Vec::new();
        while starts.len() < size
            invariant
                self.wf(),
                starts@.len() <= size,
                self.done() == from,
                from + size <= self.n_windows(),
                starts@ == window_starts(from, starts@.len() as int, self.block_size()),
                val_tokens@.len() == self.num_tokens(),
                fit(val_tokens@, starts@, self.block_size()),
            decreases size - starts@.len(),
        {
            let ghost before = starts@;
            proof {
                lemma_windows_fit(*self, from + starts@.len() + 1);
                assert((from + starts@.len() + 1) * self.block_size() == (from + starts@.len())
                    * self.block_size() + self.block_size()) by (nonlinear_arith);
                assert(0 <= (from + starts@.len()) * self.block_size()) by (nonlinear_arith)
                    requires
                        0 <= from,
                        0 <= self.block_size(),
                ;
            }
            starts.push((self.window + starts.len()) * self.block_size);
            assert(starts@ =~= window_starts(from, starts@.len() as int, self.block_size()));
        }
        proof {
            lemma_windows_fit(*self, size as int);
        }
        let (inputs, targets) = window_batch(val_tokens, starts.as_slice(), self.block_size)?;
        let tokens = size * self.block_size;
        self.window = self.window + size;
        Ok(Some(EvalBatch { inputs, targets, tokens }))
    }
}

/// The first `count` windows of a pass, with the target of their last token, lie within
/// the validation set.
proof fn lemma_windows_fit(pass: Evaluation, count: int)
    requires
        pass.wf(),
        0 <= count <= pass.n_windows(),
    ensures
        0 <= count * pass.block_size() < pass.num_tokens(),
{
    let fitting = windows_that_fit(pass.num_tokens(), pass.block_size());
    lemma_fundamental_div_mod(pass.num_tokens() - 1, pass.block_size());
    assert(0 <= count * pass.block_size() <= fitting * pass.block_size()) by (nonlinear_arith)
        requires
            0 <= count <= fitting,
            0 < pass.block_size(),
    ;
    assert(fitting * pass.block_size() == pass.block_size() * fitting) by (nonlinear_arith);
}

/// No room is wasted: the windows, with the target of the last token, fit into the
/// validation set, and one window more would not.
pub proof fn law_as_many_windows_as_fit(num_tokens: int, block_size: int)
    requires
        0 < block_size < num_tokens,
    ensures
        windows_that_fit(num_tokens, block_size) > 0,
        windows_that_fit(num_tokens, block_size) * block_size + 1 <= num_tokens,
        (windows_that_fit(num_tokens, block_size) + 1) * block_size + 1 > num_tokens,
{
    let fitting = windows_that_fit(num_tokens, block_size);
    lemma_fundamental_div_mod(num_tokens - 1, block_size);
    assert(fitting * block_size == block_size * fitting) by (nonlinear_arith);
    assert((fitting + 1) * block_size == block_size * fitting + block_size) by (nonlinear_arith);
    assert(fitting > 0) by (nonlinear_arith)
        requires
            block_size * fitting + block_size > num_tokens - 1,
            0 < block_size <= num_tokens - 1,
    ;
}

/// Windows do not overlap: a later window begins where the one before it has ended.
pub proof fn law_windows_do_not_overlap(a: int, b: int, block_size: int)
    requires
        a < b,
        0 <= block_size,
    ensures
        a * block_size + block_size <= b * block_size,
{
    assert(a * block_size + block_size <= b * block_size) by (nonlinear_arith)
        requires
            a + 1 <= b,
            0 <= block_size,
    ;
}

/// The batches of a pass take up the windows in order, each once: the windows of two
/// batches that follow each other are those of one longer batch.
pub proof fn law_batches_continue_each_other(from: int, first: int, second: int, block_size: int)
    requires
        0 <= first,
        0 <= second,
    ensures
        window_starts(from, first, block_size) + window_starts(from + first, second, block_size)
            == window_starts(from, first + second, block_size),
{
    assert(window_starts(from, first, block_size) + window_starts(from + first, second, block_size)
        =~= window_starts(from, first + second, block_size));
}

/// The bit pattern of a NaN in single precision: the loss where there is nothing to evaluate.
pub const NOT_A_NUMBER: u32 = 0x7fc0_0000;

/// The number of windows in batch `k` of `n_windows` windows.
pub open spec fn windows_in_batch(k: int, batch_size: int, n_windows: int) -> int {
    if n_windows - k * batch_size < batch_size {
        n_windows - k * batch_size
    } else {
        batch_size
    }
}

/// `count` windows from the window numbered `from` on, moved on by `shift` tokens: a matrix
/// with a window to a row.
pub open spec fn windows_value(
    tokens: Seq<u32>,
    from: int,
    count: int,
    block_size: int,
    shift: int,
) -> TensorValue {
    TensorValue {
        element: ElementType::U32,
        dims: seq![count as usize, block_size as usize],
        bits: tokens.subrange(
            from * block_size + shift,
            (from + count) * block_size + shift,
        ).map_values(|id: u32| id as u64),
    }
}

/// Whether the mean loss of `model` on batch `k` of the validation windows may be `loss`.
pub open spec fn batch_loss_may_be(
    model: Network,
    tokens: Seq<u32>,
    block_size: int,
    batch_size: int,
    n_windows: int,
    k: int,
    loss: u64,
) -> bool {
    let from = k * batch_size;
    let count = windows_in_batch(k, batch_size, n_windows);
    model.loss_may_be(
        windows_value(tokens, from, count, block_size, 0),
        windows_value(tokens, from, count, block_size, 1),
        TensorValue { element: ElementType::F32, dims: Seq::empty(), bits: seq![loss] },
    )
}

/// The sum of the batches' mean losses, each weighted by the number of tokens that the
/// batch predicts, so that a short final batch is not averaged as if it were full.
pub open spec fn weighted_total(
    losses: Seq<u64>,
    block_size: int,
    batch_size: int,
    n_windows: int,
) -> u64
    decreases losses.len(),
{
    if losses.len() == 0 {
        count_bits(0)
    } else {
        let tokens = windows_in_batch(losses.len() - 1, batch_size, n_windows) * block_size;
        number_sum(
            ElementType::F64,
            weighted_total(losses.drop_last(), block_size, batch_size, n_windows),
            number_product(
                ElementType::F64,
                number_converted(losses.last(), true),
                count_bits(tokens as usize),
            ),
        )
    }
}

/// The token-weighted mean of the batches' losses, in single precision.
pub open spec fn weighted_mean(
    losses: Seq<u64>,
    block_size: int,
    batch_size: int,
    n_windows: int,
) -> u64 {
    number_converted(
        number_quotient(
            ElementType::F64,
            weighted_total(losses, block_size, batch_size, n_windows),
            count_bits((n_windows * block_size) as usize),
        ),
        false,
    )
}

/// `count` batches of `batch_size` windows take up `n_windows` windows, the last of them
/// perhaps in part.
pub open spec fn batches_cover(count: int, batch_size: int, n_windows: int) -> bool {
    if n_windows == 0 {
        count == 0
    } else {
        0 < count && (count - 1) * batch_size < n_windows <= count * batch_size
    }
}

/// Whether `losses` may be the mean losses of the first batches.
pub open spec fn losses_may_be(
    model: Network,
    tokens: Seq<u32>,
    block_size: int,
    batch_size: int,
    n_windows: int,
    losses: Seq<u64>,
) -> bool {
    forall|k: int|
        0 <= k < losses.len() ==> batch_loss_may_be(
            model,
            tokens,
            block_size,
            batch_size,
            n_windows,
            k,
            #[trigger] losses[k],
        )
}

/// Whether the mean loss over `n_windows` validation windows may be `mean`.
pub open spec fn mean_may_be(
    model: Network,
    tokens: Seq<u32>,
    block_size: int,
    batch_size: int,
    n_windows: int,
    mean: u64,
) -> bool {
    exists|losses: Seq<u64>|
        {
            &&& batches_cover(losses.len() as int, batch_size, n_windows)
            &&& #[trigger] losses_may_be(model, tokens, block_size, batch_size, n_windows, losses)
            &&& mean == weighted_mean(losses, block_size, batch_size, n_windows)
        }
}

/// Each of the first `count` tokens has a row in the vocabulary.
pub open spec fn tokens_have_rows(tokens: Seq<u32>, count: int, vocab_size: int) -> bool {
    forall|i: int| 0 <= i < count ==> has_row(
        ElementType::U32,
        #[trigger] tokens[i] as u64,
        vocab_size,
    )
}

/// Whether the model's heads take up its embedding, if it has any blocks.
pub open spec fn heads_fit(model: Network) -> bool {
    model.cfg.n_layer > 0 ==> model.heads_tile()
}

/// Whether evaluating `model` on the validation tokens may end in `loss`: NaN where they
/// form no window; otherwise the mean over the windows to evaluate, where every token that
/// they reach has a row and the model's heads fit; and otherwise the error of the first
/// batch that fails.
pub open spec fn evaluates_to(
    model: Network,
    tokens: Seq<u32>,
    block_size: int,
    batch_size: int,
    max_batches: int,
    loss: Result<u32, ModelError>,
) -> bool {
    if tokens.len() <= block_size {
        loss == Ok::<u32, ModelError>(NOT_A_NUMBER)
    } else {
        let n_windows = windows_to_evaluate(
            tokens.len() as int,
            block_size,
            batch_size,
            max_batches,
        );
        let vocab_size = model.cfg.vocab_size as int;
        let first = windows_in_batch(0, batch_size, n_windows) * block_size;
        &&& loss is Ok <==> n_windows == 0 || (heads_fit(model) && tokens_have_rows(
            tokens,
            n_windows * block_size + 1,
            vocab_size,
        ))
        &&& loss == Err::<u32, ModelError>(ModelError::Heads) <==> n_windows > 0 && !heads_fit(
            model,
        ) && tokens_have_rows(tokens, first, vocab_size)
        &&& loss matches Err(e) ==> e is Heads || e is Tensor
        &&& loss matches Ok(bits) ==> mean_may_be(
            model,
            tokens,
            block_size,
            batch_size,
            n_windows,
            number(ElementType::F32, bits as u64),
        )
    }
}

/// A run of tokens, as a matrix, has rows for its ids just where the tokens do.
proof fn lemma_rows(model: Network, tokens: Seq<u32>, from: int, count: int, block_size: int, shift: int)
    requires
        0 <= from * block_size + shift <= (from + count) * block_size + shift <= tokens.len(),
    ensures
        model.rows_for(windows_value(tokens, from, count, block_size, shift)) <==> (forall|i: int|
            from * block_size + shift <= i < (from + count) * block_size + shift ==> has_row(
                ElementType::U32,
                #[trigger] tokens[i] as u64,
                model.cfg.vocab_size as int,
            )),
{
    let v = windows_value(tokens, from, count, block_size, shift);
    let start = from * block_size + shift;
    let vocab = model.cfg.vocab_size as int;
    if model.rows_for(v) {
        assert forall|i: int|
            start <= i < (from + count) * block_size + shift implies has_row(
            ElementType::U32,
            #[trigger] tokens[i] as u64,
            vocab,
        ) by {
            assert(has_row(ElementType::U32, v.bits[i - start], vocab));
        }
    } else {
        let k = choose|k: int| 0 <= k < v.bits.len() && !has_row(
            ElementType::U32,
            #[trigger] v.bits[k],
            vocab,
        );
        assert(!has_row(ElementType::U32, tokens[start + k] as u64, vocab));
    }
}

/// A batch of windows that follow each other, as the two matrices that it is made of.
proof fn lemma_batch_value(
    batch: EvalBatch,
    tokens: Seq<u32>,
    from: int,
    count: int,
    block_size: int,
)
    requires
        0 <= from,
        0 <= count,
        0 < block_size,
        (from + count) * block_size < tokens.len() <= usize::MAX,
        is_batch(
            batch.inputs,
            batch.targets,
            tokens,
            window_starts(from, count, block_size),
            block_size,
        ),
    ensures
        value(batch.inputs) == windows_value(tokens, from, count, block_size, 0),
        value(batch.targets) == windows_value(tokens, from, count, block_size, 1),
        0 <= from * block_size <= (from + count) * block_size,
{
    let starts = window_starts(from, count, block_size);
    let first = from * block_size;
    assert(0 <= first <= (from + count) * block_size) by (nonlinear_arith)
        requires
            first == from * block_size,
            0 <= from,
            0 <= count,
            0 < block_size,
    ;
    assert forall|i: int| 0 <= i < starts.len() implies #[trigger] starts[i] == first + i
        * block_size && starts[i] + block_size < tokens.len() by {
        assert(0 <= (from + i) * block_size && (from + i) * block_size + block_size <= (from
            + count) * block_size) by (nonlinear_arith)
            requires
                0 <= from,
                0 <= i,
                i + 1 <= count,
                0 < block_size,
        ;
        assert((from + i) * block_size == first + i * block_size) by (nonlinear_arith)
            requires
                first == from * block_size,
        ;
    }
    assert((from + count) * block_size == first + count * block_size) by (nonlinear_arith)
        requires
            first == from * block_size,
    ;
    lemma_consecutive(tokens, starts, block_size, 0, first);
    lemma_consecutive(tokens, starts, block_size, 1, first);
    assert(value(batch.inputs) =~= windows_value(tokens, from, count, block_size, 0));
    assert(value(batch.targets) =~= windows_value(tokens, from, count, block_size, 1));
}

/// Fewer sequences need no more room.
proof fn lemma_fewer_fit(model: Network, few: int, many: int, t: int)
    requires
        0 <= few <= many,
        0 <= t,
        model.holds(many, t),
    ensures
        model.holds(few, t),
{
    let wide = (4 * model.cfg.n_embd) as int;
    let vocab = model.cfg.vocab_size as int;
    let heads = model.cfg.n_head as int;
    assert(few * t * wide <= many * t * wide) by (nonlinear_arith)
        requires
            0 <= few <= many,
            0 <= t,
            0 <= wide,
    ;
    assert(few * t * vocab <= many * t * vocab) by (nonlinear_arith)
        requires
            0 <= few <= many,
            0 <= t,
            0 <= vocab,
    ;
    assert(few * heads * t * t <= many * heads * t * t) by (nonlinear_arith)
        requires
            0 <= few <= many,
            0 <= t,
            0 <= heads,
    ;
}

/// `total` with the mean loss of a batch of `tokens` tokens added to it.
fn add_weighted(total: &Tensor, loss: &Tensor, tokens: usize) -> (sum: Result<
    Tensor,
    candle_core::Error,
>)
    requires
        is_scalar(*total, ElementType::F64),
        is_scalar(*loss, ElementType::F32),
        tokens <= isize::MAX,
    ensures
        sum matches Ok(s) && is_scalar(s, ElementType::F64) && scalar(s) == number_sum(
            ElementType::F64,
            scalar(*total),
            number_product(
                ElementType::F64,
                number_converted(scalar(*loss), true),
                count_bits(tokens),
            ),
        ),
{
    let weight = count_scalar(tokens)?;
    let mean = convert_scalar(loss, true)?;
    let weighted = multiply_scalars(&mean, &weight)?;
    let sum = add_tensors(total, &weighted)?;
    assert(value(sum).numeric().bits.len() == 1);
    assert(scalar(sum) == value(sum).numeric().bits[0]);
    Ok(sum)
}

/// The mean over `tokens` tokens whose weighted losses add up to `total`, by its bit pattern
/// in single precision.
fn mean_bits(total: &Tensor, tokens: usize) -> (mean: Result<u32, candle_core::Error>)
    requires
        is_scalar(*total, ElementType::F64),
        tokens <= isize::MAX,
    ensures
        mean matches Ok(bits) && number(ElementType::F32, bits as u64) == number_converted(
            number_quotient(ElementType::F64, scalar(*total), count_bits(tokens)),
            false,
        ),
{
    let count = count_scalar(tokens)?;
    let mean = convert_scalar(&divide_scalars(total, &count)?, false)?;
    Ok(single_bits(&mean))
}

/// Mean next-token cross-entropy of `model` over the validation tokens, by its bit pattern
/// in single precision.
///
/// The validation tokens are cut into back-to-back windows of `block_size`; the targets are
/// the inputs moved on by one. Windows are grouped into batches of `batch_size`;
/// `max_batches` caps how many batches are evaluated, 0 meaning every window. The loss is
/// NaN if the validation set is too short to form a single window.
pub fn eval_loss(
    model: &GptModel,
    val_tokens: &[u32],
    block_size: usize,
    batch_size: usize,
    max_batches: usize,
) -> (loss: Result<u32, ModelError>)
    requires
        model.wf(),
        block_size > 0 || val_tokens@.len() == 0,
        val_tokens@.len() <= isize::MAX,
        val_tokens@.len() > block_size ==> {
            let n_windows = windows_to_evaluate(
                val_tokens@.len() as int,
                block_size as int,
                batch_size as int,
                max_batches as int,
            );
            &&& model@.cfg.vocab_size > 0
            &&& batch_size > 0 || max_batches > 0
            &&& max_batches * batch_size <= usize::MAX
            &&& block_size <= model@.cfg.block_size
            &&& model@.holds(windows_in_batch(0, batch_size as int, n_windows), block_size as int)
        },
    ensures
        evaluates_to(
            model@,
            val_tokens@,
            block_size as int,
            batch_size as int,
            max_batches as int,
            loss,
        ),
{
    let mut pass = match Evaluation::new(val_tokens.len(), block_size, batch_size, max_batches) {
        Some(pass) => pass,
        None => return Ok(NOT_A_NUMBER),
    };
    let ghost n = pass.n_windows();
    let ghost vocab_size = model@.cfg.vocab_size as int;
    let ghost size = block_size as int;
    let ghost batch = batch_size as int;
    let ghost tokens = val_tokens@;
    let ghost first = windows_in_batch(0, batch, n);
    let mut total = lift(count_scalar(0))?;
    let ghost mut losses: Seq<u64> = Seq::empty();
    proof {
        assert(0 * batch == 0) by (nonlinear_arith);
        assert(0 * size == 0) by (nonlinear_arith);
    }
    loop
        invariant_except_break
            model.wf(),
            model@.cfg.vocab_size == vocab_size,
            vocab_size > 0,
            tokens == val_tokens@,
            block_size < tokens.len() <= isize::MAX,
            size == block_size,
            batch == batch_size,
            n == windows_to_evaluate(tokens.len() as int, size, batch, max_batches as int),
            pass.wf(),
            pass.num_tokens() == tokens.len(),
            pass.block_size() == size,
            pass.batch_size() == batch,
            pass.n_windows() == n,
            block_size <= model@.cfg.block_size,
            first == windows_in_batch(0, batch, n),
            model@.holds(first, size),
            n > 0 && !heads_fit(model@) ==> pass.done() == 0,
            pass.done() < n ==> pass.done() == losses.len() * batch,
            pass.done() == n ==> batches_cover(losses.len() as int, batch, n),
            pass.done() > 0 ==> tokens_have_rows(tokens, pass.done() * size + 1, vocab_size),
            is_scalar(total, ElementType::F64),
            scalar(total) == weighted_total(losses, size, batch, n),
            losses_may_be(model@, tokens, size, batch, n, losses),
        ensures
            pass.wf(),
            pass.num_tokens() == tokens.len(),
            pass.block_size() == size,
            pass.n_windows() == n,
            pass.done() == n,
            n > 0 ==> heads_fit(model@),
            batches_cover(losses.len() as int, batch, n),
            n > 0 ==> tokens_have_rows(tokens, n * size + 1, vocab_size),
            is_scalar(total, ElementType::F64),
            scalar(total) == weighted_total(losses, size, batch, n),
            losses_may_be(model@, tokens, size, batch, n, losses),
        decreases n - pass.done(),
    {
        let ghost from = pass.done();
        let ghost count = pass.next_size();
        let b = match lift(pass.next_batch(val_tokens))? {
            Some(b) => b,
            None => {
                break;
            },
        };
        let ghost k = losses.len() as int;
        proof {
            lemma_windows_fit(pass, from + count);
            lemma_batch_value(b, tokens, from, count, size);
            lemma_first_is_largest(k, batch, n);
            lemma_fewer_fit(model@, count, first, size);
            lemma_rows(model@, tokens, from, count, size, 0);
            lemma_rows(model@, tokens, from, count, size, 1);
            lemma_batch_bounds(from, count, size);
        }
        let loss = match model.loss(&b.inputs, &b.targets) {
            Ok(loss) => loss,
            Err(e) => {
                proof {
                    lemma_windows_fit(pass, n);
                    assert((from + count) * size <= n * size) by (nonlinear_arith)
                        requires
                            from + count <= n,
                            0 < size,
                    ;
                    assert(n > 0);
                    if tokens_have_rows(tokens, n * size + 1, vocab_size) {
                        assert(model@.rows_for(value(b.inputs)));
                        assert(model@.rows_for(value(b.targets)));
                        assert(!heads_fit(model@));
                    }
                }
                return Err(e);
            },
        };
        total = lift(add_weighted(&total, &loss, b.tokens))?;
        proof {
            let longer = losses.push(scalar(loss));
            assert(longer.drop_last() =~= losses);
            let expected = TensorValue {
                element: ElementType::F32,
                dims: Seq::empty(),
                bits: seq![scalar(loss)],
            };
            assert(numbers(loss) =~= expected);
            assert(batch_loss_may_be(model@, tokens, size, batch, n, k, scalar(loss)));
            assert forall|i: int| 0 <= i < longer.len() implies batch_loss_may_be(
                model@,
                tokens,
                size,
                batch,
                n,
                i,
                #[trigger] longer[i],
            ) by {
                if i < k {
                    assert(longer[i] == losses[i]);
                }
            }
            assert((k + 1) * batch == k * batch + batch) by (nonlinear_arith);
            losses = longer;
        }
    }
    proof {
        lemma_windows_fit(pass, n);
    }
    lift(mean_bits(&total, pass.evaluated_tokens()))
}

/// No batch is larger than the first.
proof fn lemma_first_is_largest(k: int, batch_size: int, n_windows: int)
    requires
        0 <= k,
        0 <= batch_size,
        k * batch_size <= n_windows,
    ensures
        windows_in_batch(k, batch_size, n_windows) <= windows_in_batch(0, batch_size, n_windows),
{
    assert(0 <= k * batch_size) by (nonlinear_arith)
        requires
            0 <= k,
            0 <= batch_size,
    ;
}

/// Where a batch of windows begins and ends.
proof fn lemma_batch_bounds(from: int, count: int, block_size: int)
    requires
        0 <= from,
        0 < count,
        0 < block_size,
    ensures
        0 <= from * block_size < (from + count) * block_size,
        count * block_size <= (from + count) * block_size,
        from > 0 ==> from * block_size > 0,
{
    assert(0 <= from * block_size) by (nonlinear_arith)
        requires
            0 <= from,
            0 < block_size,
    ;
    assert(from * block_size < (from + count) * block_size) by (nonlinear_arith)
        requires
            0 < count,
            0 < block_size,
    ;
    assert(count * block_size <= (from + count) * block_size) by (nonlinear_arith)
        requires
            0 <= from,
            0 < block_size,
    ;
    if from > 0 {
        assert(from * block_size > 0) by (nonlinear_arith)
            requires
                0 < from,
                0 < block_size,
        ;
    }
}

/// The losses of the first batches depend on the tokens that the windows reach alone.
proof fn lemma_losses_of_prefix(
    model: Network,
    a: Seq<u32>,
    b: Seq<u32>,
    block_size: int,
    batch_size: int,
    n_windows: int,
    losses: Seq<u64>,
)
    requires
        0 < block_size,
        0 <= batch_size,
        0 <= n_windows,
        n_windows * block_size < a.len(),
        n_windows * block_size < b.len(),
        a.take(n_windows * block_size + 1) == b.take(n_windows * block_size + 1),
        batches_cover(losses.len() as int, batch_size, n_windows),
        losses_may_be(model, a, block_size, batch_size, n_windows, losses),
    ensures
        losses_may_be(model, b, block_size, batch_size, n_windows, losses),
{
    let reach = n_windows * block_size + 1;
    assert forall|k: int| 0 <= k < losses.len() implies batch_loss_may_be(
        model,
        b,
        block_size,
        batch_size,
        n_windows,
        k,
        #[trigger] losses[k],
    ) by {
        let from = k * batch_size;
        let count = windows_in_batch(k, batch_size, n_windows);
        assert(from < n_windows) by (nonlinear_arith)
            requires
                from == k * batch_size,
                k <= losses.len() - 1,
                (losses.len() - 1) * batch_size < n_windows,
                0 <= batch_size,
        ;
        assert(0 <= from) by (nonlinear_arith)
            requires
                from == k * batch_size,
                0 <= k,
                0 <= batch_size,
        ;
        assert(0 <= from * block_size <= (from + count) * block_size <= n_windows * block_size)
            by (nonlinear_arith)
            requires
                0 <= from,
                0 <= count,
                from + count <= n_windows,
                0 < block_size,
        ;
        assert forall|shift: int| 0 <= shift <= 1 implies #[trigger] windows_value(
            a,
            from,
            count,
            block_size,
            shift,
        ) == windows_value(b, from, count, block_size, shift) by {
            let low = from * block_size + shift;
            let high = (from + count) * block_size + shift;
            assert(a.subrange(low, high) =~= a.take(reach).subrange(low, high));
            assert(b.subrange(low, high) =~= b.take(reach).subrange(low, high));
        }
        assert(windows_value(a, from, count, block_size, 0) == windows_value(
            b,
            from,
            count,
            block_size,
            0,
        ));
        assert(windows_value(a, from, count, block_size, 1) == windows_value(
            b,
            from,
            count,
            block_size,
            1,
        ));
        assert(batch_loss_may_be(model, a, block_size, batch_size, n_windows, k, losses[k]));
    }
}

/// Tokens that agree as far as the windows reach may give the same mean.
proof fn lemma_mean_of_prefix(
    model: Network,
    a: Seq<u32>,
    b: Seq<u32>,
    block_size: int,
    batch_size: int,
    n_windows: int,
    mean: u64,
)
    requires
        0 < block_size,
        0 <= batch_size,
        0 <= n_windows,
        n_windows * block_size < a.len(),
        n_windows * block_size < b.len(),
        a.take(n_windows * block_size + 1) == b.take(n_windows * block_size + 1),
        mean_may_be(model, a, block_size, batch_size, n_windows, mean),
    ensures
        mean_may_be(model, b, block_size, batch_size, n_windows, mean),
{
    let losses = choose|losses: Seq<u64>|
        {
            &&& batches_cover(losses.len() as int, batch_size, n_windows)
            &&& #[trigger] losses_may_be(model, a, block_size, batch_size, n_windows, losses)
            &&& mean == weighted_mean(losses, block_size, batch_size, n_windows)
        };
    lemma_losses_of_prefix(model, a, b, block_size, batch_size, n_windows, losses);
}

/// Tokens that agree as far as the windows reach have rows alike.
proof fn lemma_rows_of_prefix(a: Seq<u32>, b: Seq<u32>, reach: int, count: int, vocab_size: int)
    requires
        0 <= count <= reach <= a.len(),
        reach <= b.len(),
        a.take(reach) == b.take(reach),
        tokens_have_rows(a, count, vocab_size),
    ensures
        tokens_have_rows(b, count, vocab_size),
{
    assert forall|i: int| 0 <= i < count implies has_row(
        ElementType::U32,
        #[trigger] b[i] as u64,
        vocab_size,
    ) by {
        assert(a.take(reach)[i] == a[i]);
        assert(b.take(reach)[i] == b[i]);
        assert(has_row(ElementType::U32, a[i] as u64, vocab_size));
    }
}

/// Two evaluations of as many windows over tokens that agree as far as these reach may end
/// alike.
proof fn lemma_same_windows(
    model: Network,
    a: Seq<u32>,
    b: Seq<u32>,
    block_size: int,
    batch_size: int,
    a_max: int,
    b_max: int,
    n_windows: int,
    loss: Result<u32, ModelError>,
)
    requires
        0 < block_size < a.len(),
        block_size < b.len(),
        0 <= batch_size,
        0 <= n_windows,
        n_windows == windows_to_evaluate(a.len() as int, block_size, batch_size, a_max),
        n_windows == windows_to_evaluate(b.len() as int, block_size, batch_size, b_max),
        n_windows * block_size < a.len(),
        n_windows * block_size < b.len(),
        a.take(n_windows * block_size + 1) == b.take(n_windows * block_size + 1),
        evaluates_to(model, a, block_size, batch_size, a_max, loss),
    ensures
        evaluates_to(model, b, block_size, batch_size, b_max, loss),
{
    let reach = n_windows * block_size + 1;
    let vocab_size = model.cfg.vocab_size as int;
    let first = windows_in_batch(0, batch_size, n_windows) * block_size;
    assert(0 <= first < reach) by (nonlinear_arith)
        requires
            first == windows_in_batch(0, batch_size, n_windows) * block_size,
            0 <= windows_in_batch(0, batch_size, n_windows) <= n_windows,
            0 < block_size,
            reach == n_windows * block_size + 1,
    ;
    assert(0 <= n_windows * block_size) by (nonlinear_arith)
        requires
            0 <= n_windows,
            0 < block_size,
    ;
    if tokens_have_rows(a, reach, vocab_size) {
        lemma_rows_of_prefix(a, b, reach, reach, vocab_size);
    }
    if tokens_have_rows(b, reach, vocab_size) {
        lemma_rows_of_prefix(b, a, reach, reach, vocab_size);
    }
    if tokens_have_rows(a, first, vocab_size) {
        lemma_rows_of_prefix(a, b, reach, first, vocab_size);
    }
    if tokens_have_rows(b, first, vocab_size) {
        lemma_rows_of_prefix(b, a, reach, first, vocab_size);
    }
    if loss is Ok {
        let mean = number(ElementType::F32, loss->Ok_0 as u64);
        lemma_mean_of_prefix(model, a, b, block_size, batch_size, n_windows, mean);
    }
}

/// How many windows there are and how far they reach.
proof fn lemma_reach(num_tokens: int, block_size: int, batch_size: int, max_batches: int)
    requires
        0 < block_size < num_tokens,
        0 <= batch_size,
        0 <= max_batches,
    ensures
        ({
            let n_windows = windows_to_evaluate(num_tokens, block_size, batch_size, max_batches);
            &&& 0 <= n_windows <= windows_that_fit(num_tokens, block_size)
            &&& 0 <= n_windows * block_size < num_tokens
        }),
{
    let fitting = windows_that_fit(num_tokens, block_size);
    let n_windows = windows_to_evaluate(num_tokens, block_size, batch_size, max_batches);
    law_as_many_windows_as_fit(num_tokens, block_size);
    assert(0 <= max_batches * batch_size) by (nonlinear_arith)
        requires
            0 <= max_batches,
            0 <= batch_size,
    ;
    assert(0 <= n_windows * block_size <= fitting * block_size) by (nonlinear_arith)
        requires
            0 <= n_windows <= fitting,
            0 < block_size,
    ;
}

/// Evaluation depends on nothing but the model and the tokens that whole windows reach: two
/// validation sets with as many whole windows that agree up to the target of the last one
/// may give exactly the same results.
pub proof fn law_tokens_past_the_last_window_do_not_count(
    model: Network,
    a: Seq<u32>,
    b: Seq<u32>,
    block_size: int,
    batch_size: int,
    max_batches: int,
    loss: Result<u32, ModelError>,
)
    requires
        0 < block_size < a.len(),
        block_size < b.len(),
        0 <= batch_size,
        0 <= max_batches,
        windows_that_fit(a.len() as int, block_size) == windows_that_fit(
            b.len() as int,
            block_size,
        ),
        a.take(windows_that_fit(a.len() as int, block_size) * block_size + 1) == b.take(
            windows_that_fit(b.len() as int, block_size) * block_size + 1,
        ),
    ensures
        evaluates_to(model, a, block_size, batch_size, max_batches, loss) <==> evaluates_to(
            model,
            b,
            block_size,
            batch_size,
            max_batches,
            loss,
        ),
{
    let fitting = windows_that_fit(a.len() as int, block_size);
    let n = windows_to_evaluate(a.len() as int, block_size, batch_size, max_batches);
    lemma_reach(a.len() as int, block_size, batch_size, max_batches);
    lemma_reach(b.len() as int, block_size, batch_size, max_batches);
    law_as_many_windows_as_fit(a.len() as int, block_size);
    law_as_many_windows_as_fit(b.len() as int, block_size);
    assert(n * block_size <= fitting * block_size) by (nonlinear_arith)
        requires
            0 <= n <= fitting,
            0 < block_size,
    ;
    let whole = fitting * block_size + 1;
    let reach = n * block_size + 1;
    assert(a.take(reach) =~= a.take(whole).take(reach));
    assert(b.take(reach) =~= b.take(whole).take(reach));
    if evaluates_to(model, a, block_size, batch_size, max_batches, loss) {
        lemma_same_windows(model, a, b, block_size, batch_size, max_batches, max_batches, n, loss);
    }
    if evaluates_to(model, b, block_size, batch_size, max_batches, loss) {
        lemma_same_windows(model, b, a, block_size, batch_size, max_batches, max_batches, n, loss);
    }
}

/// A cap keeps the first windows: a capped evaluation may end just as one without a cap does
/// over the tokens that the remaining windows reach.
pub proof fn law_cap_keeps_the_first_windows(
    model: Network,
    tokens: Seq<u32>,
    block_size: int,
    batch_size: int,
    max_batches: int,
    loss: Result<u32, ModelError>,
)
    requires
        0 < block_size < tokens.len(),
        0 < batch_size,
        0 < max_batches,
    ensures
        ({
            let n_windows = windows_to_evaluate(
                tokens.len() as int,
                block_size,
                batch_size,
                max_batches,
            );
            &&& 0 < n_windows * block_size + 1 <= tokens.len()
            &&& evaluates_to(model, tokens, block_size, batch_size, max_batches, loss)
                <==> evaluates_to(
                model,
                tokens.take(n_windows * block_size + 1),
                block_size,
                batch_size,
                0,
                loss,
            )
        }),
{
    let n = windows_to_evaluate(tokens.len() as int, block_size, batch_size, max_batches);
    let reach = n * block_size + 1;
    let short = tokens.take(reach);
    lemma_reach(tokens.len() as int, block_size, batch_size, max_batches);
    law_as_many_windows_as_fit(tokens.len() as int, block_size);
    assert(max_batches * batch_size > 0) by (nonlinear_arith)
        requires
            0 < batch_size,
            0 < max_batches,
    ;
    assert(n * block_size >= block_size) by (nonlinear_arith)
        requires
            n >= 1,
            0 < block_size,
    ;
    lemma_fundamental_div_mod_converse(n * block_size, block_size, n, 0);
    assert(windows_to_evaluate(short.len() as int, block_size, batch_size, 0) == n);
    assert(short.take(reach) =~= tokens.take(reach));
    if evaluates_to(model, tokens, block_size, batch_size, max_batches, loss) {
        lemma_same_windows(model, tokens, short, block_size, batch_size, max_batches, 0, n, loss);
    }
    if evaluates_to(model, short, block_size, batch_size, 0, loss) {
        lemma_same_windows(model, short, tokens, block_size, batch_size, 0, max_batches, n, loss);
    }
}

/// A cap that leaves room for every window is no cap.
pub proof fn law_generous_cap_is_no_cap(
    model: Network,
    tokens: Seq<u32>,
    block_size: int,
    batch_size: int,
    max_batches: int,
    loss: Result<u32, ModelError>,
)
    requires
        max_batches * batch_size >= windows_that_fit(tokens.len() as int, block_size),
    ensures
        evaluates_to(model, tokens, block_size, batch_size, max_batches, loss) <==> evaluates_to(
            model,
            tokens,
            block_size,
            batch_size,
            0,
            loss,
        ),
{
}

/// `n` is the number of windows to evaluate: together with the target of the last token they
/// lie within the validation set and take up no more than `max_batches` batches, where 0
/// stands for no limit; and with one window more they would not.
pub open spec fn is_window_count(
    n: int,
    num_tokens: int,
    block_size: int,
    batch_size: int,
    max_batches: int,
) -> bool {
    &&& 0 <= n
    &&& n * block_size < num_tokens
    &&& max_batches == 0 || n <= max_batches * batch_size
    &&& (n + 1) * block_size >= num_tokens || (max_batches > 0 && n == max_batches * batch_size)
}

/// As many windows are evaluated as fit into the validation set and the cap, and that is one
/// number only.
pub proof fn law_windows_are_counted(
    n: int,
    num_tokens: int,
    block_size: int,
    batch_size: int,
    max_batches: int,
)
    requires
        0 < block_size < num_tokens,
        0 <= batch_size,
        0 <= max_batches,
    ensures
        windows_to_evaluate(num_tokens, block_size, batch_size, max_batches) == n
            <==> is_window_count(n, num_tokens, block_size, batch_size, max_batches),
{
    let fitting = windows_that_fit(num_tokens, block_size);
    let count = windows_to_evaluate(num_tokens, block_size, batch_size, max_batches);
    law_as_many_windows_as_fit(num_tokens, block_size);
    lemma_reach(num_tokens, block_size, batch_size, max_batches);
    assert(is_window_count(count, num_tokens, block_size, batch_size, max_batches));
    if is_window_count(n, num_tokens, block_size, batch_size, max_batches) {
        if n < count {
            assert((n + 1) * block_size <= count * block_size) by (nonlinear_arith)
                requires
                    n + 1 <= count,
                    0 < block_size,
            ;
        }
        if count < n {
            assert((count + 1) * block_size <= n * block_size) by (nonlinear_arith)
                requires
                    count + 1 <= n,
                    0 < block_size,
            ;
        }
    }
}

/// A run of tokens as a matrix.
pub open spec fn run_as_matrix(tokens: Seq<u32>, first: int, rows: int, columns: int) -> TensorValue {
    TensorValue {
        element: ElementType::U32,
        dims: seq![rows as usize, columns as usize],
        bits: Seq::new((rows * columns) as nat, |p: int| tokens[first + p] as u64),
    }
}

/// The number of windows in a batch that begins with window `from`: a full batch, or all that
/// are left.
pub open spec fn rows_from(from: int, batch_size: int, n_windows: int) -> int {
    if from + batch_size <= n_windows {
        batch_size
    } else {
        n_windows - from
    }
}

/// The losses weighted by the number of tokens that each batch predicts.
pub open spec fn weighted_losses(
    losses: Seq<u64>,
    block_size: int,
    batch_size: int,
    n_windows: int,
) -> Seq<u64> {
    Seq::new(
        losses.len(),
        |k: int|
            number_product(
                ElementType::F64,
                number_converted(losses[k], true),
                count_bits((rows_from(k * batch_size, batch_size, n_windows) * block_size) as usize),
            ),
    )
}

/// The losses of batches that take up all windows, each once and in order: batch `k` begins
/// where `k` full batches end, its inputs are the tokens of its windows in a row, and its
/// targets are the same run one token further on.
pub open spec fn are_losses_of_all_windows(
    model: Network,
    tokens: Seq<u32>,
    block_size: int,
    batch_size: int,
    n_windows: int,
    losses: Seq<u64>,
) -> bool {
    &&& n_windows <= losses.len() * batch_size
    &&& losses.len() > 0 ==> (losses.len() - 1) * batch_size < n_windows
    &&& forall|k: int|
        0 <= k < losses.len() ==> {
            let first = k * batch_size * block_size;
            let rows = rows_from(k * batch_size, batch_size, n_windows);
            model.loss_may_be(
                run_as_matrix(tokens, first, rows, block_size),
                run_as_matrix(tokens, first + 1, rows, block_size),
                TensorValue {
                    element: ElementType::F32,
                    dims: Seq::empty(),
                    bits: seq![#[trigger] losses[k]],
                },
            )
        }
}

/// The weighted total is what the weighted losses add up to, from zero on.
proof fn lemma_weighted_total(
    losses: Seq<u64>,
    block_size: int,
    batch_size: int,
    n_windows: int,
)
    ensures
        weighted_total(losses, block_size, batch_size, n_windows) == weighted_losses(
            losses,
            block_size,
            batch_size,
            n_windows,
        ).fold_left(count_bits(0), |sum: u64, x: u64| number_sum(ElementType::F64, sum, x)),
    decreases losses.len(),
{
    reveal_with_fuel(Seq::fold_left, 2);
    let all = weighted_losses(losses, block_size, batch_size, n_windows);
    if losses.len() > 0 {
        lemma_weighted_total(losses.drop_last(), block_size, batch_size, n_windows);
        assert(all.drop_last() =~= weighted_losses(
            losses.drop_last(),
            block_size,
            batch_size,
            n_windows,
        ));
    }
}

/// An evaluation, batch by batch: the windows are taken up in order, each once, in full batches
/// but for the last. The result is the mean of the batches' losses, each weighted by the number
/// of tokens that its batch predicts, over the number of all tokens that are predicted.
pub proof fn law_evaluation_batch_by_batch(
    model: Network,
    tokens: Seq<u32>,
    block_size: int,
    batch_size: int,
    max_batches: int,
    n: int,
    bits: u32,
)
    requires
        0 < block_size < tokens.len(),
        0 <= batch_size,
        0 <= max_batches,
        is_window_count(n, tokens.len() as int, block_size, batch_size, max_batches),
        evaluates_to(model, tokens, block_size, batch_size, max_batches, Ok(bits)),
    ensures
        exists|losses: Seq<u64>|
            {
                let total = weighted_losses(losses, block_size, batch_size, n).fold_left(
                    count_bits(0),
                    |sum: u64, x: u64| number_sum(ElementType::F64, sum, x),
                );
                &&& #[trigger] are_losses_of_all_windows(
                    model,
                    tokens,
                    block_size,
                    batch_size,
                    n,
                    losses,
                )
                &&& number(ElementType::F32, bits as u64) == number_converted(
                    number_quotient(
                        ElementType::F64,
                        total,
                        count_bits((n * block_size) as usize),
                    ),
                    false,
                )
            },
{
    law_windows_are_counted(n, tokens.len() as int, block_size, batch_size, max_batches);
    lemma_reach(tokens.len() as int, block_size, batch_size, max_batches);
    let mean = number(ElementType::F32, bits as u64);
    let losses = choose|losses: Seq<u64>|
        {
            &&& batches_cover(losses.len() as int, batch_size, n)
            &&& #[trigger] losses_may_be(model, tokens, block_size, batch_size, n, losses)
            &&& mean == weighted_mean(losses, block_size, batch_size, n)
        };
    lemma_weighted_total(losses, block_size, batch_size, n);
    if n == 0 {
        assert(0 * batch_size == 0) by (nonlinear_arith);
    }
    assert forall|k: int| 0 <= k < losses.len() implies {
        let first = k * batch_size * block_size;
        let rows = rows_from(k * batch_size, batch_size, n);
        model.loss_may_be(
            run_as_matrix(tokens, first, rows, block_size),
            run_as_matrix(tokens, first + 1, rows, block_size),
            TensorValue {
                element: ElementType::F32,
                dims: Seq::empty(),
                bits: seq![#[trigger] losses[k]],
            },
        )
    } by {
        assert(batch_loss_may_be(model, tokens, block_size, batch_size, n, k, losses[k]));
        let from = k * batch_size;
        let rows = rows_from(from, batch_size, n);
        assert(0 <= from < n) by (nonlinear_arith)
            requires
                from == k * batch_size,
                0 <= k <= losses.len() - 1,
                (losses.len() - 1) * batch_size < n,
                0 <= batch_size,
        ;
        assert((from + rows) * block_size == from * block_size + rows * block_size)
            by (nonlinear_arith);
        assert(0 <= from * block_size && 0 <= rows * block_size && (from + rows) * block_size <= n
            * block_size) by (nonlinear_arith)
            requires
                0 <= from,
                0 <= rows,
                from + rows <= n,
                0 < block_size,
        ;
        assert(windows_value(tokens, from, rows, block_size, 0) =~= run_as_matrix(
            tokens,
            from * block_size,
            rows,
            block_size,
        ));
        assert(windows_value(tokens, from, rows, block_size, 1) =~= run_as_matrix(
            tokens,
            from * block_size + 1,
            rows,
            block_size,
        ));
    }
    assert(are_losses_of_all_windows(model, tokens, block_size, batch_size, n, losses));
}

/// Which evaluations succeed: those of no window, and those in which the model's heads take up its embedding, or there
/// are no blocks, and in which every token up to the target of the last one has a row. Where
/// the heads do not fit, that is what comes back, unless the first batch holds a token
/// without a row.
pub proof fn law_which_evaluations_succeed(
    model: Network,
    tokens: Seq<u32>,
    block_size: int,
    batch_size: int,
    max_batches: int,
    n: int,
    loss: Result<u32, ModelError>,
)
    requires
        model.is_valid(),
        0 < block_size < tokens.len(),
        0 <= batch_size,
        0 <= max_batches,
        is_window_count(n, tokens.len() as int, block_size, batch_size, max_batches),
        evaluates_to(model, tokens, block_size, batch_size, max_batches, loss),
    ensures
        batch_size > 0 ==> n > 0,
        ({
            let heads = model.cfg.n_layer > 0 ==> model.cfg.n_embd as int % model.cfg.n_head as int
                == 0;
            let known = |id: u32| id < model.cfg.vocab_size || id == u32::MAX;
            let first = rows_from(0, batch_size, n) * block_size;
            &&& loss is Ok <==> n == 0 || heads && (forall|i: int|
                0 <= i <= n * block_size ==> known(#[trigger] tokens[i]))
            &&& loss == Err::<u32, ModelError>(ModelError::Heads) <==> n > 0 && !heads && (
            forall|i: int|
                0 <= i < first ==> known(#[trigger] tokens[i]))
            &&& loss matches Err(e) ==> e is Heads || e is Tensor
        }),
{
    law_windows_are_counted(n, tokens.len() as int, block_size, batch_size, max_batches);
    lemma_reach(tokens.len() as int, block_size, batch_size, max_batches);
    law_as_many_windows_as_fit(tokens.len() as int, block_size);
    if max_batches > 0 && batch_size > 0 {
        assert(max_batches * batch_size > 0) by (nonlinear_arith)
            requires
                0 < batch_size,
                0 < max_batches,
        ;
    }
    assert(0 * batch_size == 0) by (nonlinear_arith);
    if model.cfg.n_layer > 0 {
        let width = model.cfg.n_embd as int;
        let heads = model.cfg.n_head as int;
        law_heads_tile_the_embedding(width, heads);
        lemma_fundamental_div_mod(width, heads);
        let d = width / heads;
        let rest = width % heads;
        assert(0 <= d <= width) by (nonlinear_arith)
            requires
                width == heads * d + rest,
                0 <= rest,
                rest < heads,
                0 <= width,
        ;
    }
    let vocab = model.cfg.vocab_size as int;
    let known = |id: u32| id < model.cfg.vocab_size || id == u32::MAX;
    assert forall|count: int| #[trigger] tokens_have_rows(tokens, count, vocab) == (forall|i: int|
        0 <= i < count ==> known(#[trigger] tokens[i])) by {
        if tokens_have_rows(tokens, count, vocab) {
            assert forall|i: int| 0 <= i < count implies known(#[trigger] tokens[i]) by {
                assert(has_row(ElementType::U32, tokens[i] as u64, vocab));
            }
        }
        if forall|i: int| 0 <= i < count ==> known(#[trigger] tokens[i]) {
            assert forall|i: int| 0 <= i < count implies has_row(
                ElementType::U32,
                #[trigger] tokens[i] as u64,
                vocab,
            ) by {
                assert(known(tokens[i]));
            }
        }
    }
    let reach = n * block_size + 1;
    assert(tokens_have_rows(tokens, reach, vocab) == (forall|i: int|
        0 <= i <= n * block_size ==> known(#[trigger] tokens[i])));
}

/// A validation set that is too short to form a window has no loss: the result is NaN.
pub proof fn law_no_window_no_loss(
    model: Network,
    tokens: Seq<u32>,
    block_size: int,
    batch_size: int,
    max_batches: int,
    loss: Result<u32, ModelError>,
)
    requires
        tokens.len() <= block_size,
    ensures
        evaluates_to(model, tokens, block_size, batch_size, max_batches, loss) <==> loss == Ok::<
            u32,
            ModelError,
        >(0x7fc0_0000),
{
}

/// The next batch is a full one, or all that is left; its windows are the next ones, and each
/// begins where the one before it ends.
pub proof fn law_next_batch_takes_the_next_windows(pass: Evaluation, i: int)
    requires
        pass.wf(),
        0 <= i < pass.next_size(),
    ensures
        pass.next_size() <= pass.batch_size(),
        pass.done() + pass.next_size() <= pass.n_windows(),
        pass.next_size() == pass.batch_size() || pass.done() + pass.next_size() == pass.n_windows(),
        ({
            let starts = window_starts(pass.done(), pass.next_size(), pass.block_size());
            &&& starts.len() == pass.next_size()
            &&& starts[i] == (pass.done() + i) * pass.block_size()
        }),
{
    lemma_windows_fit(pass, pass.done() + i);
}

} // verus!
