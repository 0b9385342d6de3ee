//! Windows of tokens for next-token prediction: the inputs are a run of tokens, and the
//! targets are the same run moved on by one.
use crate::tensor::{tensor_bits, tensor_dims, tensor_element, token_matrix, ElementType};
use candle_core::Tensor;
use vstd::prelude::*;

verus! {

/// The runs of `block_size` tokens that begin `shift` behind each of `starts`, one after
/// the other.
pub open spec fn gathered(
    tokens: Seq<u32>,
    starts: Seq<usize>,
    block_size: int,
    shift: int,
) -> Seq<u32>
    decreases starts.len(),
{
    if starts.len() == 0 {
        Seq::empty()
    } else {
        let start = starts.last() + shift;
        gathered(tokens, starts.drop_last(), block_size, shift) + tokens.subrange(
            start,
            start + block_size,
        )
    }
}

/// Each of `starts` leaves room for a window and for the target of its last token.
pub open spec fn fit(tokens: Seq<u32>, starts: Seq<usize>, block_size: int) -> bool {
    forall|i: int| 0 <= i < starts.len() ==> #[trigger] starts[i] + block_size < tokens.len()
}

/// `matrix` holds `ids`, `columns` to a row.
pub open spec fn is_token_matrix(matrix: Tensor, ids: Seq<u32>, rows: int, columns: int) -> bool {
    &&& tensor_element(matrix) == ElementType::U32
    &&& tensor_dims(matrix) == seq![rows as usize, columns as usize]
    &&& tensor_bits(matrix) == ids.map_values(|id: u32| id as u64)
}

/// `inputs` and `targets` hold the windows of `tokens` at `starts`, a window to a row.
pub open spec fn is_batch(
    inputs: Tensor,
    targets: Tensor,
    tokens: Seq<u32>,
    starts: Seq<usize>,
    block_size: int,
) -> bool {
    &&& is_token_matrix(
        inputs,
        gathered(tokens, starts, block_size, 0),
        starts.len() as int,
        block_size,
    )
    &&& is_token_matrix(
        targets,
        gathered(tokens, starts, block_size, 1),
        starts.len() as int,
        block_size,
    )
}

/// Windows that fit have their full length.
pub proof fn lemma_gathered_len(tokens: Seq<u32>, starts: Seq<usize>, block_size: int, shift: int)
    requires
        fit(tokens, starts, block_size),
        0 <= block_size,
        0 <= shift <= 1,
    ensures
        gathered(tokens, starts, block_size, shift).len() == starts.len() * block_size,
    decreases starts.len(),
{
    if starts.len() > 0 {
        let rest = starts.drop_last();
        assert forall|i: int| 0 <= i < rest.len() implies #[trigger] rest[i] + block_size
            < tokens.len() by {
            assert(starts[i] + block_size < tokens.len());
        }
        lemma_gathered_len(tokens, rest, block_size, shift);
        assert(starts[starts.len() - 1] + block_size < tokens.len());
        assert(starts.len() * block_size == rest.len() * block_size + block_size)
            by (nonlinear_arith)
            requires
                starts.len() == rest.len() + 1,
        ;
    } else {
        assert(0 * block_size == 0) by (nonlinear_arith);
    }
}

/// Copy out the windows of `tokens` at `starts`: the inputs, and the targets one token
/// further on.
pub fn gather_windows(tokens: &[u32], starts: &[usize], block_size: usize) -> (pair: (
    Vec<u32>,
    Vec<u32>,
))
    requires
        fit(tokens@, starts@, block_size as int),
    ensures
        pair.0@ == gathered(tokens@, starts@, block_size as int, 0),
        pair.1@ == gathered(tokens@, starts@, block_size as int, 1),
{
    let mut xs: Vec<u32> = Vec::new();
    let mut ys: Vec<u32> = Vec::new();
    let mut i: usize = 0;
    while i < starts.len()
        invariant
            i <= starts@.len(),
            fit(tokens@, starts@, block_size as int),
            xs@ == gathered(tokens@, starts@.take(i as int), block_size as int, 0),
            ys@ == gathered(tokens@, starts@.take(i as int), block_size as int, 1),
        decreases starts@.len() - i,
    {
        let start = starts[i];
        assert(starts@[i as int] + block_size < tokens.len());
        let ghost done = starts@.take(i as int);
        let ghost now = starts@.take(i + 1);
        assert(now.drop_last() =~= done);
        xs.extend_from_slice(&tokens[start..start + block_size]);
        ys.extend_from_slice(&tokens[start + 1..start + 1 + block_size]);
        assert(xs@ =~= gathered(tokens@, now, block_size as int, 0));
        assert(ys@ =~= gathered(tokens@, now, block_size as int, 1));
        i = i + 1;
    }
    assert(starts@.take(starts@.len() as int) =~= starts@);
    (xs, ys)
}

/// The windows of `tokens` at `starts` as two matrices, each of shape
/// `(starts.len(), block_size)`: inputs and targets.
pub fn window_batch(tokens: &[u32], starts: &[usize], block_size: usize) -> (batch: Result<
    (Tensor, Tensor),
    candle_core::Error,
>)
    requires
        fit(tokens@, starts@, block_size as int),
    ensures
        batch matches Ok(b) && is_batch(b.0, b.1, tokens@, starts@, block_size as int),
{
    let (xs, ys) = gather_windows(tokens, starts, block_size);
    proof {
        lemma_gathered_len(tokens@, starts@, block_size as int, 0);
        lemma_gathered_len(tokens@, starts@, block_size as int, 1);
    }
    let inputs = token_matrix(xs, starts.len(), block_size)?;
    let targets = token_matrix(ys, starts.len(), block_size)?;
    Ok((inputs, targets))
}

/// Windows that follow each other make up one run of tokens.
pub proof fn lemma_consecutive(
    tokens: Seq<u32>,
    starts: Seq<usize>,
    block_size: int,
    shift: int,
    first: int,
)
    requires
        fit(tokens, starts, block_size),
        0 <= first,
        0 < block_size,
        0 <= shift <= 1,
        forall|i: int|
            0 <= i < starts.len() ==> #[trigger] starts[i] == first + i * block_size,
        first + shift <= tokens.len(),
    ensures
        first + starts.len() * block_size + shift <= tokens.len(),
        gathered(tokens, starts, block_size, shift) == tokens.subrange(
            first + shift,
            first + starts.len() * block_size + shift,
        ),
    decreases starts.len(),
{
    let whole = gathered(tokens, starts, block_size, shift);
    if starts.len() > 0 {
        let rest = starts.drop_last();
        let end = first + rest.len() * block_size;
        assert forall|i: int| 0 <= i < rest.len() implies #[trigger] rest[i] + block_size
            < tokens.len() by {
            assert(starts[i] + block_size < tokens.len());
        }
        lemma_consecutive(tokens, rest, block_size, shift, first);
        assert(starts[starts.len() - 1] + block_size < tokens.len());
        assert(starts.len() * block_size == rest.len() * block_size + block_size)
            by (nonlinear_arith)
            requires
                starts.len() == rest.len() + 1,
        ;
        assert(0 <= rest.len() * block_size) by (nonlinear_arith)
            requires
                0 < block_size,
        ;
        assert(starts.last() == end);
        assert(whole =~= tokens.subrange(first + shift, end + block_size + shift));
    } else {
        assert(0 * block_size == 0) by (nonlinear_arith);
        assert(whole =~= tokens.subrange(first + shift, first + shift));
    }
}

/// A token of a batch: row `row`, column `column` is the token that stands `column` behind
/// the row's start, moved on by `shift`.
pub proof fn law_rows_are_windows(
    tokens: Seq<u32>,
    starts: Seq<usize>,
    block_size: int,
    shift: int,
    row: int,
    column: int,
)
    requires
        fit(tokens, starts, block_size),
        0 <= shift <= 1,
        0 <= row < starts.len(),
        0 <= column < block_size,
    ensures
        0 <= row * block_size + column < gathered(tokens, starts, block_size, shift).len(),
        gathered(tokens, starts, block_size, shift)[row * block_size + column] == tokens[starts[row]
            + shift + column],
    decreases starts.len(),
{
    let rest = starts.drop_last();
    assert forall|i: int| 0 <= i < rest.len() implies #[trigger] rest[i] + block_size
        < tokens.len() by {
        assert(starts[i] + block_size < tokens.len());
    }
    lemma_gathered_len(tokens, starts, block_size, shift);
    lemma_gathered_len(tokens, rest, block_size, shift);
    assert(starts[starts.len() - 1] + block_size < tokens.len());
    assert(row * block_size + column < starts.len() * block_size) by (nonlinear_arith)
        requires
            row < starts.len(),
            column < block_size,
            0 <= column,
    ;
    assert(0 <= row * block_size) by (nonlinear_arith)
        requires
            0 <= row,
            0 <= block_size,
    ;
    if row < rest.len() {
        law_rows_are_windows(tokens, rest, block_size, shift, row, column);
    } else {
        assert(row == rest.len());
    }
}

/// Next-token prediction: the target of every position is the token that follows its
/// input, which within a row is the input of the next position.
pub proof fn law_targets_follow_inputs(
    tokens: Seq<u32>,
    starts: Seq<usize>,
    block_size: int,
    row: int,
    column: int,
)
    requires
        fit(tokens, starts, block_size),
        0 <= row < starts.len(),
        0 <= column < block_size,
    ensures
        gathered(tokens, starts, block_size, 0)[row * block_size + column] == tokens[starts[row]
            + column],
        gathered(tokens, starts, block_size, 1)[row * block_size + column] == tokens[starts[row]
            + column + 1],
        column + 1 < block_size ==> gathered(tokens, starts, block_size, 1)[row * block_size
            + column] == gathered(tokens, starts, block_size, 0)[row * block_size + column + 1],
{
    law_rows_are_windows(tokens, starts, block_size, 0, row, column);
    law_rows_are_windows(tokens, starts, block_size, 1, row, column);
    if column + 1 < block_size {
        law_rows_are_windows(tokens, starts, block_size, 0, row, column + 1);
    }
}

/// A batch has a row for each window and a column for each position, in its inputs and in its
/// targets.
pub proof fn law_batch_shape(
    inputs: Tensor,
    targets: Tensor,
    tokens: Seq<u32>,
    starts: Seq<usize>,
    block_size: usize,
)
    requires
        is_batch(inputs, targets, tokens, starts, block_size as int),
        fit(tokens, starts, block_size as int),
        starts.len() <= usize::MAX,
    ensures
        tensor_element(inputs) == ElementType::U32,
        tensor_element(targets) == ElementType::U32,
        tensor_dims(inputs) == seq![starts.len() as usize, block_size],
        tensor_dims(targets) == seq![starts.len() as usize, block_size],
        tensor_bits(inputs).len() == starts.len() * block_size,
        tensor_bits(targets).len() == starts.len() * block_size,
{
    lemma_gathered_len(tokens, starts, block_size as int, 0);
    lemma_gathered_len(tokens, starts, block_size as int, 1);
}

/// A batch, cell by cell: the input in a cell is the token that stands as far behind the row's
/// start as the cell's column, and its target is the token after that.
pub proof fn law_batch_cell_by_cell(
    inputs: Tensor,
    targets: Tensor,
    tokens: Seq<u32>,
    starts: Seq<usize>,
    block_size: usize,
    row: int,
    column: int,
)
    requires
        is_batch(inputs, targets, tokens, starts, block_size as int),
        fit(tokens, starts, block_size as int),
        0 <= row < starts.len(),
        0 <= column < block_size,
    ensures
        0 <= row * block_size + column < starts.len() * block_size,
        tensor_bits(inputs)[row * block_size + column] == tokens[starts[row] + column],
        tensor_bits(targets)[row * block_size + column] == tokens[starts[row] + column + 1],
{
    law_targets_follow_inputs(tokens, starts, block_size as int, row, column);
    law_rows_are_windows(tokens, starts, block_size as int, 0, row, column);
    law_rows_are_windows(tokens, starts, block_size as int, 1, row, column);
    lemma_gathered_len(tokens, starts, block_size as int, 0);
    lemma_gathered_len(tokens, starts, block_size as int, 1);
}

} // verus!
