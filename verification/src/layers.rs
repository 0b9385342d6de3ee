//! The operations that the transformer is built from.
//!
//! Moving numbers about (looking up, slicing, reshaping, swapping dimensions) and
//! arithmetic on single numbers is stated exactly. The operations that add up many
//! products or powers round differently with the processor's vector width and the number
//! of threads, so nothing fixes their result to the last bit. For each of them a relation
//! says which inputs go with which output, row by row or number by number: that the
//! operation may give this output for these inputs.
use crate::tensor::{
    is_finite, is_scalar, number, number_sum, tensor_bits, tensor_dims, tensor_element,
    unsigned_zero, value, ElementType, TensorValue,
};
use candle_core::{DType, Device, Module, Tensor};
use candle_nn::{Embedding, LayerNorm, Linear};
use vstd::prelude::*;

verus! {

/// Whether the elements of `t` are stored in row-major order without gaps.
pub uninterp spec fn tensor_contiguous(t: Tensor) -> bool;

/// Whether the matrices that the last two dimensions of `t` make up are stored at a
/// regular distance, as a matrix product wants them.
pub uninterp spec fn tensor_stacked(t: Tensor) -> bool;

/// What `t` holds, each element by its number.
pub open spec fn numbers(t: Tensor) -> TensorValue {
    value(t).numeric()
}

/// `t` holds single-precision numbers and has the given dimensions.
pub open spec fn is_single(t: Tensor, dims: Seq<usize>) -> bool {
    tensor_element(t) == ElementType::F32 && tensor_dims(t) == dims
}

/// No dimension is zero.
pub open spec fn all_positive(dims: Seq<usize>) -> bool {
    forall|i: int| 0 <= i < dims.len() ==> #[trigger] dims[i] > 0
}

/// The number of elements in a tensor of the given dimensions.
pub open spec fn volume(dims: Seq<usize>) -> int
    decreases dims.len(),
{
    if dims.len() == 0 {
        1
    } else {
        volume(dims.drop_last()) * dims.last()
    }
}

/// Where element `i`, in row-major order, stands in each dimension.
pub open spec fn coordinates(dims: Seq<usize>, i: int) -> Seq<int>
    decreases dims.len(),
{
    if dims.len() == 0 {
        Seq::empty()
    } else {
        coordinates(dims.drop_last(), i / dims.last() as int).push(i % dims.last() as int)
    }
}

/// The place in row-major order of the element at the given coordinates.
pub open spec fn offset(dims: Seq<usize>, at: Seq<int>) -> int
    decreases dims.len(),
{
    if dims.len() == 0 {
        0
    } else {
        offset(dims.drop_last(), at.drop_last()) * dims.last() + at.last()
    }
}

/// A sequence with two of its items exchanged.
pub open spec fn exchanged<T>(s: Seq<T>, a: int, b: int) -> Seq<T> {
    s.update(a, s[b]).update(b, s[a])
}

/// A tensor with dimensions `a` and `b` exchanged.
pub open spec fn swapped(t: TensorValue, a: int, b: int) -> TensorValue {
    let dims = exchanged(t.dims, a, b);
    TensorValue {
        dims,
        bits: Seq::new(
            t.bits.len(),
            |i: int| t.bits[offset(t.dims, exchanged(coordinates(dims, i), a, b))],
        ),
        ..t
    }
}

/// A tensor of the same elements in the same order, with other dimensions.
pub open spec fn reshaped(t: TensorValue, dims: Seq<usize>) -> TensorValue {
    TensorValue { dims, ..t }
}

/// The elements of `t` from `start` on, `len` of them, along the last dimension.
pub open spec fn columns(t: TensorValue, start: int, len: usize) -> TensorValue {
    let width = t.dims.last() as int;
    TensorValue {
        dims: t.dims.drop_last().push(len),
        bits: Seq::new(
            (t.bits.len() as int / width * len) as nat,
            |i: int| t.bits[i / len as int * width + start + i % len as int],
        ),
        ..t
    }
}

/// `left` with `right` added to it over and over, as often as it fits.
pub open spec fn added_to_each(left: TensorValue, right: TensorValue) -> TensorValue {
    TensorValue {
        bits: Seq::new(
            left.bits.len(),
            |i: int|
                number_sum(left.element, left.bits[i], right.bits[i % right.bits.len() as int]),
        ),
        ..left
    }
}

/// Whether ids can have this type.
pub open spec fn is_id_type(element: ElementType) -> bool {
    element is U8 || element is U32 || element is I64
}

/// The id of this type that stands for no row at all: the largest there is.
pub open spec fn no_row(element: ElementType) -> u64 {
    match element {
        ElementType::U8 => u8::MAX as u64,
        ElementType::U32 => u32::MAX as u64,
        _ => i64::MAX as u64,
    }
}

/// Whether id `id` has a row in a table of `rows` rows, or is the id that stands for no row
/// at all.
pub open spec fn has_row(element: ElementType, id: u64, rows: int) -> bool {
    id < rows || id == no_row(element)
}

/// Whether the elements are ids, each with a row in a table of `rows` rows.
pub open spec fn all_have_rows(ids: TensorValue, rows: int) -> bool {
    &&& is_id_type(ids.element)
    &&& forall|i: int| 0 <= i < ids.bits.len() ==> has_row(ids.element, #[trigger] ids.bits[i], rows)
}

/// Whether the elements can be used as ids on this machine: where they are wider than an
/// index, none has a value beyond it.
pub open spec fn ids_fit(ids: TensorValue) -> bool {
    ids.element is I64 ==> forall|i: int|
        0 <= i < ids.bits.len() ==> #[trigger] ids.bits[i] <= usize::MAX
}

/// One row of `table` for each of `ids`; the id that stands for no row gets zeros.
pub open spec fn looked_up(table: TensorValue, ids: TensorValue) -> TensorValue {
    let width = table.dims.last() as int;
    TensorValue {
        element: table.element,
        dims: ids.dims.push(table.dims.last()),
        bits: Seq::new(
            (ids.bits.len() * width) as nat,
            |i: int|
                {
                    let id = ids.bits[i / width];
                    if id == no_row(ids.element) {
                        0
                    } else {
                        table.bits[id * width + i % width]
                    }
                },
        ),
    }
}

/// Whether all elements are there: as many as the dimensions ask for.
pub open spec fn is_full(t: TensorValue) -> bool {
    t.bits.len() == volume(t.dims)
}

/// Row `i` of a tensor: the elements along the last dimension, all other dimensions taken as
/// one.
pub open spec fn row(t: TensorValue, i: int) -> Seq<u64> {
    let width = t.dims.last() as int;
    Seq::new(width as nat, |e: int| t.bits[i * width + e])
}

/// Column `j` of matrix `g` in a stack of matrices.
pub open spec fn column(t: TensorValue, g: int, j: int) -> Seq<u64> {
    let height = t.dims[2] as int;
    let width = t.dims[3] as int;
    Seq::new(height as nat, |k: int| t.bits[(g * height + k) * width + j])
}

/// The element in row `i` and column `j` of matrix `g` in a stack of matrices.
pub open spec fn cell(t: TensorValue, g: int, i: int, j: int) -> u64 {
    t.bits[(g * t.dims[2] + i) * t.dims[3] + j]
}

/// Every number is neither infinite nor NaN.
pub open spec fn finite_singles(xs: Seq<u64>) -> bool {
    forall|i: int| 0 <= i < xs.len() ==> is_finite(ElementType::F32, #[trigger] xs[i])
}

/// The bit pattern of negative infinity in single precision.
pub const NEGATIVE_INFINITY: u32 = 0xff80_0000;

/// Whether a linear layer may turn the row `x` into the row `y`: each number of `y` comes
/// from multiplying `x` with a row of the weight, adding up the products in some order, and
/// adding the bias.
pub uninterp spec fn linear_row_gives(
    weight: TensorValue,
    bias: TensorValue,
    x: Seq<u64>,
    y: Seq<u64>,
) -> bool;

/// Whether layer normalization with the double-precision number `epsilon` may turn the row
/// `x` into the row `y`.
pub uninterp spec fn normalization_row_gives(
    weight: TensorValue,
    bias: TensorValue,
    epsilon: u64,
    x: Seq<u64>,
    y: Seq<u64>,
) -> bool;

/// Whether the activation function may turn `x` into `y`.
pub uninterp spec fn gelu_number_gives(x: u64, y: u64) -> bool;

/// Whether `y` may come out where the products of the numbers of `left` and `right` are added
/// up in some order, perhaps together with zeros.
pub uninterp spec fn dot_gives(left: Seq<u64>, right: Seq<u64>, y: u64) -> bool;

/// Whether the softmax of the row `x` may come out as `y`, its exponentials being added up in
/// some order, perhaps together with zeros.
pub uninterp spec fn softmax_row_gives(x: Seq<u64>, y: Seq<u64>) -> bool;

/// Whether a linear layer may turn `x` into `y`: row by row.
pub open spec fn linear_gives(
    weight: TensorValue,
    bias: TensorValue,
    x: TensorValue,
    y: TensorValue,
) -> bool {
    &&& y.element == x.element
    &&& y.dims == x.dims.drop_last().push(weight.dims[0])
    &&& is_full(y)
    &&& forall|i: int|
        0 <= i < volume(x.dims.drop_last()) ==> linear_row_gives(
            weight,
            bias,
            row(x, i),
            #[trigger] row(y, i),
        )
}

/// Whether layer normalization with the double-precision number `epsilon` may turn `x` into
/// `y`: row by row.
pub open spec fn normalization_gives(
    weight: TensorValue,
    bias: TensorValue,
    epsilon: u64,
    x: TensorValue,
    y: TensorValue,
) -> bool {
    &&& y.element == x.element
    &&& y.dims == x.dims
    &&& is_full(y)
    &&& forall|i: int|
        0 <= i < volume(x.dims.drop_last()) ==> normalization_row_gives(
            weight,
            bias,
            epsilon,
            row(x, i),
            #[trigger] row(y, i),
        )
}

/// Whether the activation function may turn `x` into `y`: number by number.
pub open spec fn gelu_gives(x: TensorValue, y: TensorValue) -> bool {
    &&& y.element == x.element
    &&& y.dims == x.dims
    &&& is_full(y)
    &&& forall|i: int|
        0 <= i < y.bits.len() ==> gelu_number_gives(x.bits[i], #[trigger] y.bits[i])
}

/// Whether `y` may be the product of a row and a column, of which what stands behind the
/// first `n` numbers counts for nothing where the row is zero there and the column finite.
pub open spec fn product_cell_gives(left: Seq<u64>, right: Seq<u64>, y: u64) -> bool {
    &&& dot_gives(left, right, y)
    &&& forall|n: int|
        0 <= n <= left.len() && finite_singles(right) && (forall|k: int|
            n <= k < left.len() ==> left[k] == 0) ==> dot_gives(
            #[trigger] left.take(n),
            right.take(n),
            y,
        )
}

/// Whether the matrix products of the stacks `left` and `right` may come out as `y`.
pub open spec fn product_gives(left: TensorValue, right: TensorValue, y: TensorValue) -> bool {
    &&& y.element == left.element
    &&& y.dims == left.dims.update(3, right.dims[3])
    &&& is_full(y)
    &&& forall|g: int, i: int, j: int|
        0 <= g < left.dims[0] * left.dims[1] && 0 <= i < left.dims[2] && 0 <= j < right.dims[3]
            ==> product_cell_gives(
            row(left, g * left.dims[2] + i),
            column(right, g, j),
            #[trigger] cell(y, g, i, j),
        )
}

/// Whether the softmax of the row `x` may come out as `y`, of which what stands behind the
/// first `n` numbers counts for nothing and comes out as zero, where `x` is negative infinity
/// there and finite before.
pub open spec fn softmax_of_row_gives(x: Seq<u64>, y: Seq<u64>) -> bool {
    &&& softmax_row_gives(x, y)
    &&& forall|n: int|
        0 < n <= x.len() && finite_singles(x.take(n)) && (forall|k: int|
            n <= k < x.len() ==> x[k] == NEGATIVE_INFINITY) ==> softmax_row_gives(
            #[trigger] x.take(n),
            y.take(n),
        ) && (forall|k: int| n <= k < y.len() ==> y[k] == 0)
}

/// Whether the softmax over the last dimension of `x` may come out as `y`: row by row.
pub open spec fn softmax_gives(x: TensorValue, y: TensorValue) -> bool {
    &&& y.element == x.element
    &&& y.dims == x.dims
    &&& is_full(y)
    &&& forall|i: int|
        0 <= i < volume(x.dims.drop_last()) ==> softmax_of_row_gives(
            row(x, i),
            #[trigger] row(y, i),
        )
}

/// Whether adding `right` to each block of `left` gives `sums`: a number to which zero is
/// added stays, but for the sign of zero, and a finite one to which negative infinity is
/// added becomes negative infinity.
pub open spec fn addition_gives(left: TensorValue, right: TensorValue, sums: TensorValue) -> bool {
    &&& sums == added_to_each(left, right)
    &&& forall|i: int|
        0 <= i < sums.bits.len() && right.bits[i % right.bits.len() as int] == 0
            ==> #[trigger] sums.bits[i] == unsigned_zero(left.element, left.bits[i])
    &&& forall|i: int|
        0 <= i < sums.bits.len() && right.bits[i % right.bits.len() as int] == NEGATIVE_INFINITY
            && is_finite(left.element, left.bits[i]) ==> #[trigger] sums.bits[i]
            == NEGATIVE_INFINITY
}

/// Whether the mean cross-entropy of `logits` against `targets` may come out as `loss`.
pub uninterp spec fn cross_entropy_gives(
    logits: TensorValue,
    targets: TensorValue,
    loss: TensorValue,
) -> bool;

/// `Tensor::dims`: the dimensions.
#[verifier::external_body]
pub(crate) fn dimensions(t: &Tensor) -> (dims: Vec<usize>)
    ensures
        dims@ == tensor_dims(*t),
{
    t.dims().to_vec()
}

/// `Tensor::contiguous`: the same elements, stored in row-major order. Up to four
/// dimensions that is also how a matrix product wants them.
#[verifier::external_body]
pub(crate) fn contiguous(t: &Tensor) -> (copy: Result<Tensor, candle_core::Error>)
    requires
        tensor_element(*t) == ElementType::F32,
    ensures
        copy is Ok,
        tensor_element(copy->Ok_0) == tensor_element(*t),
        tensor_dims(copy->Ok_0) == tensor_dims(*t),
        tensor_bits(copy->Ok_0) == tensor_bits(*t),
        tensor_contiguous(copy->Ok_0),
        tensor_dims(*t).len() <= 4 ==> tensor_stacked(copy->Ok_0),
{
    t.contiguous()
}

/// `Tensor::reshape`: the same elements in the same order, with other dimensions. It is
/// refused when those ask for another number of elements, and may be for the packed types.
/// The result is contiguous.
#[verifier::external_body]
pub(crate) fn reshape(t: &Tensor, dims: &[usize]) -> (shaped: Result<Tensor, candle_core::Error>)
    requires
        all_positive(dims@),
        volume(dims@) <= usize::MAX,
    ensures
        shaped is Ok ==> volume(dims@) == volume(tensor_dims(*t)),
        volume(dims@) == volume(tensor_dims(*t)) && !(tensor_element(*t) is Packed) ==> shaped is Ok,
        shaped is Ok ==> value(shaped->Ok_0) == reshaped(value(*t), dims@),
        shaped is Ok ==> tensor_contiguous(shaped->Ok_0),
{
    t.reshape(dims)
}

/// `Tensor::transpose`: exchanges two dimensions. Exchanging the last two leaves the
/// matrices where they are stored.
#[verifier::external_body]
pub(crate) fn transpose(t: &Tensor, a: usize, b: usize) -> (turned: Result<
    Tensor,
    candle_core::Error,
>)
    requires
        a < b < tensor_dims(*t).len(),
    ensures
        turned is Ok,
        numbers(turned->Ok_0) == swapped(numbers(*t), a as int, b as int),
        tensor_stacked(*t) && a + 2 == tensor_dims(*t).len() ==> tensor_stacked(turned->Ok_0),
{
    t.transpose(a, b)
}

/// `Tensor::narrow` along the last dimension: a run of columns.
#[verifier::external_body]
pub(crate) fn narrow_last(t: &Tensor, start: usize, len: usize) -> (part: Result<
    Tensor,
    candle_core::Error,
>)
    requires
        tensor_dims(*t).len() > 0,
        0 < len,
        start + len <= tensor_dims(*t).last(),
    ensures
        part is Ok,
        numbers(part->Ok_0) == columns(numbers(*t), start as int, len),
{
    t.narrow(candle_core::D::Minus1, start, len)
}

/// `Tensor::broadcast_add`, where the right side has the last dimensions of the left:
/// adds it to each of the blocks that the leading dimensions make up. Zero and negative
/// infinity are added as IEEE-754 has it. The result is contiguous.
#[verifier::external_body]
pub(crate) fn broadcast_add(left: &Tensor, right: &Tensor) -> (total: Result<
    Tensor,
    candle_core::Error,
>)
    requires
        tensor_element(*left) == ElementType::F32,
        tensor_element(*right) == ElementType::F32,
        all_positive(tensor_dims(*left)),
        tensor_dims(*right).is_suffix_of(tensor_dims(*left)),
    ensures
        total is Ok,
        addition_gives(numbers(*left), numbers(*right), numbers(total->Ok_0)),
        tensor_contiguous(total->Ok_0),
{
    left.broadcast_add(right)
}

/// `Embedding::forward`: one row of the table for each token id. It is refused when the
/// elements are of no type that ids can have, or an id lies beyond the table, except for the
/// largest id there is, which gets zeros.
#[verifier::external_body]
pub(crate) fn embed(table: &Tensor, rows: usize, width: usize, ids: &Tensor) -> (found: Result<
    Tensor,
    candle_core::Error,
>)
    requires
        is_single(*table, seq![rows, width]),
        tensor_contiguous(*table),
        ids_fit(value(*ids)),
        all_positive(tensor_dims(*ids)),
        0 < width,
        volume(tensor_dims(*ids)) * width <= usize::MAX,
    ensures
        found is Ok <==> all_have_rows(value(*ids), rows as int),
        found is Ok ==> numbers(found->Ok_0) == looked_up(numbers(*table), value(*ids)),
{
    Embedding::new(table.clone(), width).forward(ids)
}

/// `Linear::forward` on a batch of sequences: multiplies by the transposed weight and adds
/// the bias, each row for itself. Which numbers come out depends on how the products are
/// added up, so they are only tied to the inputs by `linear_row_gives`.
#[verifier::external_body]
pub(crate) fn linear(weight: &Tensor, bias: &Tensor, x: &Tensor) -> (y: Result<
    Tensor,
    candle_core::Error,
>)
    requires
        tensor_dims(*x).len() == 3,
        tensor_contiguous(*x),
        tensor_dims(*weight).len() == 2,
        all_positive(tensor_dims(*x)),
        is_single(*x, seq![tensor_dims(*x)[0], tensor_dims(*x)[1], tensor_dims(*weight)[1]]),
        tensor_element(*weight) == ElementType::F32,
        is_single(*bias, seq![tensor_dims(*weight)[0]]),
        volume(seq![tensor_dims(*x)[0], tensor_dims(*x)[1], tensor_dims(*weight)[0]]) <= usize::MAX,
    ensures
        y is Ok,
        is_single(
            y->Ok_0,
            seq![tensor_dims(*x)[0], tensor_dims(*x)[1], tensor_dims(*weight)[0]],
        ),
        forall|i: int|
            0 <= i < volume(tensor_dims(*x).drop_last()) ==> linear_row_gives(
                numbers(*weight),
                numbers(*bias),
                row(numbers(*x), i),
                #[trigger] row(numbers(y->Ok_0), i),
            ),
        is_full(numbers(y->Ok_0)),
{
    Linear::new(weight.clone(), Some(bias.clone())).forward(x)
}

/// `LayerNorm::forward`, whose result is contiguous: brings each row to mean zero and variance one, adding to the
/// variance the double-precision number whose bit pattern is `epsilon`, multiplies it by the
/// weight and adds the bias. candle itself reads that number out of its eight bytes.
#[verifier::external_body]
pub(crate) fn normalize(weight: &Tensor, bias: &Tensor, epsilon: u64, x: &Tensor) -> (y: Result<
    Tensor,
    candle_core::Error,
>)
    requires
        tensor_element(*x) == ElementType::F32,
        tensor_dims(*x).len() > 0,
        all_positive(tensor_dims(*x)),
        is_single(*weight, seq![tensor_dims(*x).last()]),
        is_single(*bias, seq![tensor_dims(*x).last()]),
        tensor_contiguous(*weight),
        tensor_contiguous(*bias),
    ensures
        y is Ok,
        is_single(y->Ok_0, tensor_dims(*x)),
        tensor_contiguous(y->Ok_0),
        forall|i: int|
            0 <= i < volume(tensor_dims(*x).drop_last()) ==> normalization_row_gives(
                numbers(*weight),
                numbers(*bias),
                number(ElementType::F64, epsilon),
                row(numbers(*x), i),
                #[trigger] row(numbers(y->Ok_0), i),
            ),
        is_full(numbers(y->Ok_0)),
{
    let bytes = epsilon.to_le_bytes();
    let epsilon = Tensor::from_raw_buffer(&bytes, DType::F64, &[], &Device::Cpu)?;
    LayerNorm::new(weight.clone(), bias.clone(), epsilon.to_scalar()?).forward(x)
}

/// `Tensor::gelu`: the activation function, element by element. The result is contiguous.
#[verifier::external_body]
pub(crate) fn gelu(x: &Tensor) -> (y: Result<Tensor, candle_core::Error>)
    requires
        tensor_element(*x) == ElementType::F32,
        all_positive(tensor_dims(*x)),
    ensures
        y is Ok,
        is_single(y->Ok_0, tensor_dims(*x)),
        tensor_contiguous(y->Ok_0),
        forall|i: int|
            0 <= i < tensor_bits(y->Ok_0).len() ==> gelu_number_gives(
                numbers(*x).bits[i],
                #[trigger] numbers(y->Ok_0).bits[i],
            ),
        is_full(numbers(y->Ok_0)),
{
    x.gelu()
}

/// `Tensor::matmul` on two stacks of matrices: the product of each pair, row by column. Where
/// the row is zero and the column finite, only zeros are added.
#[verifier::external_body]
pub(crate) fn product(left: &Tensor, right: &Tensor) -> (y: Result<Tensor, candle_core::Error>)
    requires
        tensor_element(*left) == ElementType::F32,
        tensor_element(*right) == ElementType::F32,
        tensor_dims(*left).len() == 4,
        all_positive(tensor_dims(*left)),
        all_positive(tensor_dims(*right)),
        tensor_dims(*right) == seq![
            tensor_dims(*left)[0],
            tensor_dims(*left)[1],
            tensor_dims(*left)[3],
            tensor_dims(*right)[3],
        ],
        volume(
            seq![
                tensor_dims(*left)[0],
                tensor_dims(*left)[1],
                tensor_dims(*left)[2],
                tensor_dims(*right)[3],
            ],
        ) <= usize::MAX,
        tensor_stacked(*left),
        tensor_stacked(*right),
    ensures
        y is Ok,
        is_single(y->Ok_0, tensor_dims(*left).update(3, tensor_dims(*right)[3])),
        forall|g: int, i: int, j: int|
            0 <= g < tensor_dims(*left)[0] * tensor_dims(*left)[1] && 0 <= i < tensor_dims(*left)[2]
                && 0 <= j < tensor_dims(*right)[3] ==> dot_gives(
                row(numbers(*left), g * tensor_dims(*left)[2] + i),
                column(numbers(*right), g, j),
                #[trigger] cell(numbers(y->Ok_0), g, i, j),
            ),
        product_gives(numbers(*left), numbers(*right), numbers(y->Ok_0)),
{
    left.matmul(right)
}

/// `candle_nn::ops::softmax_last_dim`: the softmax over the last dimension, each row for
/// itself. The exponential of negative infinity is zero, and stays zero when it is divided.
/// The result is contiguous, and its matrices are stored as a matrix product wants them.
#[verifier::external_body]
pub(crate) fn softmax(x: &Tensor) -> (y: Result<Tensor, candle_core::Error>)
    requires
        tensor_element(*x) == ElementType::F32,
        0 < tensor_dims(*x).len() <= 4,
        all_positive(tensor_dims(*x)),
        tensor_contiguous(*x),
    ensures
        y is Ok,
        is_single(y->Ok_0, tensor_dims(*x)),
        tensor_stacked(y->Ok_0),
        forall|i: int|
            0 <= i < volume(tensor_dims(*x).drop_last()) ==> softmax_row_gives(
                row(numbers(*x), i),
                #[trigger] row(numbers(y->Ok_0), i),
            ),
        softmax_gives(numbers(*x), numbers(y->Ok_0)),
{
    candle_nn::ops::softmax_last_dim(x)
}

/// `candle_nn::loss::cross_entropy`: the mean over the rows of `logits` of the negative
/// log-probability of the row's target. It is refused when the targets are of no type that
/// ids can have, or one lies beyond the categories, except for the largest id there is, which
/// is left out of the sum.
#[verifier::external_body]
pub(crate) fn cross_entropy(logits: &Tensor, targets: &Tensor) -> (loss: Result<
    Tensor,
    candle_core::Error,
>)
    requires
        tensor_dims(*logits).len() == 2,
        all_positive(tensor_dims(*logits)),
        tensor_element(*logits) == ElementType::F32,
        ids_fit(value(*targets)),
        tensor_dims(*targets) == seq![tensor_dims(*logits)[0]],
        tensor_contiguous(*targets),
    ensures
        loss is Ok <==> all_have_rows(value(*targets), tensor_dims(*logits)[1] as int),
        loss is Ok ==> is_scalar(loss->Ok_0, ElementType::F32),
        loss is Ok ==> cross_entropy_gives(numbers(*logits), value(*targets), numbers(loss->Ok_0)),
{
    candle_nn::loss::cross_entropy(logits, targets)
}

/// `Tensor::arange`: the ids from 0 up to, not including, `end`.
#[verifier::external_body]
pub(crate) fn ids_below(end: u32) -> (ids: Result<Tensor, candle_core::Error>)
    ensures
        ids is Ok,
        tensor_element(ids->Ok_0) == ElementType::U32,
        tensor_dims(ids->Ok_0) == seq![end as usize],
        tensor_bits(ids->Ok_0) == Seq::new(end as nat, |i: int| i as u64),
{
    Tensor::arange(0, end, &Device::Cpu)
}

/// `Tensor::from_raw_buffer`: a matrix of single-precision numbers, row by row, read from
/// their bit patterns.
#[verifier::external_body]
pub(crate) fn single_matrix(bits: Vec<u32>, rows: usize, columns: usize) -> (matrix: Result<
    Tensor,
    candle_core::Error,
>)
    requires
        bits@.len() == rows * columns,
    ensures
        matrix is Ok,
        is_single(matrix->Ok_0, seq![rows, columns]),
        tensor_bits(matrix->Ok_0) == bits@.map_values(|b: u32| b as u64),
{
    let bytes: Vec<u8> = bits.into_iter().flat_map(u32::to_le_bytes).collect();
    Tensor::from_raw_buffer(&bytes, DType::F32, &[rows, columns], &Device::Cpu)
}

} // verus!
