//! Parameter tensors: what a `candle_core::Tensor` holds, as far as training
//! coordination has to speak of it, and the few tensor operations it is built
//! from.
//!
//! A tensor is described by the type of its elements, its dimensions, and its
//! elements in row-major order, each by its bit pattern. Arithmetic is stated on
//! *numbers*: bit patterns in which all NaNs are one and the same, because
//! IEEE-754 leaves open which NaN an operation returns. All tensors live on the
//! CPU, and bit patterns are read as on a little-endian machine.
//!
//! candle lets several handles share one storage and offers ways to write to it in place.
//! Nothing here does. What is said of a tensor holds for as long as nobody else writes to
//! its storage, so a variable that is being trained is handed in as it is at that moment,
//! for the one computation on it.
//!
//! Parameters are computed with in single and double precision. Half precision is left
//! out: how a factor is rounded to it depends on the processor.
use candle_core::{DType, Device, Tensor};
use safetensors::tensor::View as TensorBytes;
use vstd::prelude::*;

verus! {

/// `candle_core::Tensor`: an n-dimensional array.
#[verifier::external_type_specification]
#[verifier::external_body]
pub struct ExTensor(candle_core::Tensor);

/// `candle_core::Error`: why a tensor operation was refused.
#[verifier::external_type_specification]
#[verifier::external_body]
pub struct ExTensorError(candle_core::Error);

/// The type of a tensor's elements.
#[derive(Debug, Clone, Copy, PartialEq, Eq, Structural)]
pub enum ElementType {
    U8,
    U32,
    I16,
    I32,
    I64,
    BF16,
    F16,
    F32,
    F64,
    F8E4M3,
    /// One of the packed formats that candle carries but does not compute with.
    Packed,
}

impl ElementType {
    /// Single or double precision: the types in which parameters are trained.
    pub open spec fn is_full_precision(self) -> bool {
        self is F32 || self is F64
    }

    /// Whether this is single or double precision.
    pub fn full_precision(self) -> (b: bool)
        ensures
            b == self.is_full_precision(),
    {
        match self {
            ElementType::F32 => true,
            ElementType::F64 => true,
            _ => false,
        }
    }
}

/// What a tensor holds.
#[verifier::ext_equal]
pub struct TensorValue {
    pub element: ElementType,
    pub dims: Seq<usize>,
    /// One bit pattern per element, in row-major order.
    pub bits: Seq<u64>,
}

/// The type of the elements of `t`.
pub uninterp spec fn tensor_element(t: Tensor) -> ElementType;

/// The dimensions of `t`.
pub uninterp spec fn tensor_dims(t: Tensor) -> Seq<usize>;

/// The elements of `t` in row-major order, each by its bit pattern.
pub uninterp spec fn tensor_bits(t: Tensor) -> Seq<u64>;

/// What `t` holds.
pub open spec fn value(t: Tensor) -> TensorValue {
    TensorValue { element: tensor_element(t), dims: tensor_dims(t), bits: tensor_bits(t) }
}

/// Whether `bits` is a NaN of type `element`.
pub open spec fn is_nan(element: ElementType, bits: u64) -> bool {
    match element {
        ElementType::F32 => bits as int % 0x8000_0000 > 0x7f80_0000,
        ElementType::F64 => bits as int % 0x8000_0000_0000_0000 > 0x7ff0_0000_0000_0000,
        _ => false,
    }
}

/// The number that `bits` stands for: the bit pattern, with one pattern for all NaNs.
pub open spec fn number(element: ElementType, bits: u64) -> u64 {
    if is_nan(element, bits) {
        u64::MAX
    } else {
        bits
    }
}

/// The bit pattern of 1 in double precision.
pub const ONE: u64 = 0x3ff0_0000_0000_0000;

/// Whether `x` is neither infinite nor NaN.
pub open spec fn is_finite(element: ElementType, x: u64) -> bool {
    match element {
        ElementType::F32 => x as int % 0x8000_0000 < 0x7f80_0000,
        ElementType::F64 => x as int % 0x8000_0000_0000_0000 < 0x7ff0_0000_0000_0000,
        _ => false,
    }
}

/// `x`, with zero in place of negative zero.
pub open spec fn unsigned_zero(element: ElementType, x: u64) -> u64 {
    match element {
        ElementType::F32 => if x == 0x8000_0000 {
            0
        } else {
            x
        },
        ElementType::F64 => if x == 0x8000_0000_0000_0000 {
            0
        } else {
            x
        },
        _ => x,
    }
}

impl TensorValue {
    /// No element is infinite or NaN.
    pub open spec fn all_finite(self) -> bool {
        forall|i: int| 0 <= i < self.bits.len() ==> is_finite(self.element, #[trigger] self.bits[i])
    }

    /// Every element is zero, and not negative zero.
    pub open spec fn all_zero(self) -> bool {
        forall|i: int| 0 <= i < self.bits.len() ==> #[trigger] self.bits[i] == 0
    }

    /// The same tensor with zero in place of negative zero.
    pub open spec fn unsigned_zeros(self) -> TensorValue {
        TensorValue {
            bits: self.bits.map_values(|x: u64| unsigned_zero(self.element, x)),
            ..self
        }
    }

    /// The same tensor with each element by its number.
    pub open spec fn numeric(self) -> TensorValue {
        TensorValue {
            element: self.element,
            dims: self.dims,
            bits: self.bits.map_values(|b: u64| number(self.element, b)),
        }
    }

    /// No elements at all: some dimension is zero.
    pub open spec fn is_empty(self) -> bool {
        self.dims.contains(0usize)
    }

    /// Whether `self` can stand on the left of an addition or subtraction: it holds
    /// floating-point numbers of full precision, or nothing.
    pub open spec fn is_summable(self) -> bool {
        self.element.is_full_precision() || self.is_empty()
    }

    /// Whether `other` can be added to or subtracted from `self`: the dimensions agree,
    /// and so do the element types, unless there are no elements.
    pub open spec fn accepts(self, other: TensorValue) -> bool {
        self.dims == other.dims && (self.is_empty() || self.element == other.element)
    }
}

/// The number that candle's addition gives for two elements of type `element`, the one with
/// the smaller bit pattern named first. Which of them stands on the left makes no difference.
pub uninterp spec fn ordered_sum(element: ElementType, smaller: u64, larger: u64) -> u64;

/// The number that candle's subtraction gives for two elements of type `element`.
pub uninterp spec fn number_difference(element: ElementType, left: u64, right: u64) -> u64;

/// The number that candle's `affine` gives for an element of type `element`, the
/// double-precision factor `factor`, and no offset.
pub uninterp spec fn number_scaled(element: ElementType, x: u64, factor: u64) -> u64;

/// The number that candle's square root gives for an element of type `element`.
pub uninterp spec fn number_root(element: ElementType, x: u64) -> u64;

/// The number that candle's reciprocal gives for an element of type `element`.
pub uninterp spec fn number_reciprocal(element: ElementType, x: u64) -> u64;

/// The number that candle's multiplication gives for two elements of type `element`.
pub uninterp spec fn number_product(element: ElementType, left: u64, right: u64) -> u64;

/// The number that candle's division gives for two elements of type `element`.
pub uninterp spec fn number_quotient(element: ElementType, left: u64, right: u64) -> u64;

/// The number that candle's conversion between single and double precision gives: to
/// double precision if `double` is set, and to single precision otherwise.
pub uninterp spec fn number_converted(x: u64, double: bool) -> u64;

/// The bit pattern of `count` in double precision.
pub uninterp spec fn count_bits(count: usize) -> u64;

/// The reciprocal of `count` in double precision.
pub open spec fn reciprocal_bits(count: usize) -> u64 {
    number_reciprocal(ElementType::F64, count_bits(count))
}

/// The reciprocal of the square root of `count` in double precision.
pub open spec fn inverse_root_bits(count: usize) -> u64 {
    number_reciprocal(ElementType::F64, number_root(ElementType::F64, count_bits(count)))
}

/// The smaller of two bit patterns.
pub open spec fn smaller(a: u64, b: u64) -> u64 {
    if a <= b {
        a
    } else {
        b
    }
}

/// The larger of two bit patterns.
pub open spec fn larger(a: u64, b: u64) -> u64 {
    if a <= b {
        b
    } else {
        a
    }
}

/// The number that candle's addition gives for two elements of type `element`.
pub open spec fn number_sum(element: ElementType, left: u64, right: u64) -> u64 {
    ordered_sum(element, smaller(left, right), larger(left, right))
}

/// The elementwise sum of two tensors.
pub open spec fn sum(left: TensorValue, right: TensorValue) -> TensorValue {
    TensorValue {
        bits: Seq::new(
            left.bits.len(),
            |i: int| number_sum(left.element, left.bits[i], right.bits[i]),
        ),
        ..left
    }
}

/// The elementwise difference of two tensors.
pub open spec fn difference(left: TensorValue, right: TensorValue) -> TensorValue {
    TensorValue {
        bits: Seq::new(
            left.bits.len(),
            |i: int| number_difference(left.element, left.bits[i], right.bits[i]),
        ),
        ..left
    }
}

/// A tensor with each element multiplied by the double-precision number whose bit pattern is
/// `factor`.
pub open spec fn scaled(t: TensorValue, factor: u64) -> TensorValue {
    TensorValue {
        bits: t.bits.map_values(
            |x: u64| number_scaled(t.element, x, number(ElementType::F64, factor)),
        ),
        ..t
    }
}

/// `Tensor::dtype`: the type of the elements, told apart variant by variant.
#[verifier::external_body]
pub(crate) fn element_type(t: &Tensor) -> (element: ElementType)
    ensures
        element == tensor_element(*t),
{
    match t.dtype() {
        DType::U8 => ElementType::U8,
        DType::U32 => ElementType::U32,
        DType::I16 => ElementType::I16,
        DType::I32 => ElementType::I32,
        DType::I64 => ElementType::I64,
        DType::BF16 => ElementType::BF16,
        DType::F16 => ElementType::F16,
        DType::F32 => ElementType::F32,
        DType::F64 => ElementType::F64,
        DType::F8E4M3 => ElementType::F8E4M3,
        _ => ElementType::Packed,
    }
}

/// `Tensor::elem_count`: the number of elements, which is the product of the dimensions.
#[verifier::external_body]
pub(crate) fn element_count(t: &Tensor) -> (count: usize)
    ensures
        count == tensor_bits(*t).len(),
        count == 0 <==> tensor_dims(*t).contains(0usize),
{
    t.elem_count()
}

/// `Tensor::clone`: a second handle on the same elements.
#[verifier::external_body]
pub(crate) fn share(t: &Tensor) -> (copy: Tensor)
    ensures
        tensor_element(copy) == tensor_element(*t),
        tensor_dims(copy) == tensor_dims(*t),
        tensor_bits(copy) == tensor_bits(*t),
{
    t.clone()
}

/// `Tensor::zeros_like`: a tensor of the same type and dimensions in which every
/// element is zero, which in every type that candle computes with is the bit pattern 0. It is
/// refused for the packed types.
#[verifier::external_body]
pub(crate) fn zeros_like(t: &Tensor) -> (zeros: Result<Tensor, candle_core::Error>)
    ensures
        zeros is Ok <==> !(tensor_element(*t) is Packed),
        zeros is Ok ==> tensor_element(zeros->Ok_0) == tensor_element(*t),
        zeros is Ok ==> tensor_dims(zeros->Ok_0) == tensor_dims(*t),
        zeros is Ok ==> tensor_bits(zeros->Ok_0) == Seq::new(tensor_bits(*t).len(), |i: int| 0u64),
{
    t.zeros_like()
}

/// `Tensor::add`: adds element by element. It is refused when the dimensions differ,
/// or the element types do and there are elements; a sum of nothing is the left side. The sum
/// of two numbers does not depend on their order. Adding
/// zero to a number, or a number to zero, gives the number, and zero for negative zero.
#[verifier::external_body]
pub(crate) fn add_tensors(left: &Tensor, right: &Tensor) -> (total: Result<
    Tensor,
    candle_core::Error,
>)
    requires
        value(*left).is_summable(),
    ensures
        total is Ok <==> value(*left).accepts(value(*right)),
        total is Ok ==> tensor_element(total->Ok_0) == tensor_element(*left),
        total is Ok ==> tensor_dims(total->Ok_0) == tensor_dims(*left),
        total is Ok ==> value(total->Ok_0).numeric().bits == Seq::new(
            tensor_bits(*left).len(),
            |i: int|
                ordered_sum(
                    tensor_element(*left),
                    smaller(value(*left).numeric().bits[i], value(*right).numeric().bits[i]),
                    larger(value(*left).numeric().bits[i], value(*right).numeric().bits[i]),
                ),
        ),
        total is Ok && value(*right).all_zero() ==> value(total->Ok_0).numeric().bits == value(
            *left,
        ).numeric().unsigned_zeros().bits,
        total is Ok && value(*left).all_zero() ==> value(total->Ok_0).numeric().bits == value(
            *right,
        ).numeric().unsigned_zeros().bits,
{
    left + right
}

/// `Tensor::sub`: subtracts element by element, and is refused as an addition is.
#[verifier::external_body]
pub(crate) fn subtract_tensors(left: &Tensor, right: &Tensor) -> (rest: Result<
    Tensor,
    candle_core::Error,
>)
    requires
        value(*left).is_summable(),
    ensures
        rest is Ok <==> value(*left).accepts(value(*right)),
        rest is Ok ==> tensor_element(rest->Ok_0) == tensor_element(*left),
        rest is Ok ==> tensor_dims(rest->Ok_0) == tensor_dims(*left),
        rest is Ok ==> value(rest->Ok_0).numeric().bits == Seq::new(
            tensor_bits(*left).len(),
            |i: int|
                number_difference(
                    tensor_element(*left),
                    value(*left).numeric().bits[i],
                    value(*right).numeric().bits[i],
                ),
        ),
{
    left - right
}

/// `Tensor::affine` without an offset: multiplies each element by the double-precision
/// number whose bit pattern is `factor`. candle itself reads the factor out of its
/// eight bytes. The zero that is added as an offset turns negative zero into zero; but for
/// that, a factor of 1 changes nothing, and a factor of 0 leaves nothing of what is finite.
#[verifier::external_body]
pub(crate) fn scale_tensor(t: &Tensor, factor: u64) -> (product: Result<
    Tensor,
    candle_core::Error,
>)
    requires
        value(*t).is_summable(),
    ensures
        product is Ok,
        tensor_element(product->Ok_0) == tensor_element(*t),
        tensor_dims(product->Ok_0) == tensor_dims(*t),
        value(product->Ok_0).numeric().bits == value(*t).numeric().bits.map_values(
            |x: u64| number_scaled(tensor_element(*t), x, number(ElementType::F64, factor)),
        ),
        factor == ONE ==> value(product->Ok_0).numeric().bits
            == value(*t).numeric().unsigned_zeros().bits,
        factor == 0 && value(*t).numeric().all_finite() ==> value(product->Ok_0).all_zero(),
{
    let bytes = factor.to_le_bytes();
    let factor = Tensor::from_raw_buffer(&bytes, DType::F64, &[], &Device::Cpu)?;
    t.affine(factor.to_scalar()?, Default::default())
}

/// `t` is a single number of type `element`.
pub open spec fn is_scalar(t: Tensor, element: ElementType) -> bool {
    &&& tensor_element(t) == element
    &&& tensor_dims(t) == Seq::<usize>::empty()
    &&& tensor_bits(t).len() == 1
}

/// The number in a tensor that holds just one.
pub open spec fn scalar(t: Tensor) -> u64 {
    number(tensor_element(t), tensor_bits(t)[0])
}

/// `Tensor::to_dtype` on an integer: `count` in double precision.
#[verifier::external_body]
pub(crate) fn count_scalar(count: usize) -> (t: Result<Tensor, candle_core::Error>)
    requires
        count <= isize::MAX,
    ensures
        t is Ok,
        is_scalar(t->Ok_0, ElementType::F64),
        scalar(t->Ok_0) == count_bits(count),
        count == 1 ==> scalar(t->Ok_0) == ONE,
{
    Tensor::new(count as i64, &Device::Cpu)?.to_dtype(DType::F64)
}

/// `Tensor::to_dtype` between single and double precision, on a single number.
#[verifier::external_body]
pub(crate) fn convert_scalar(t: &Tensor, double: bool) -> (converted: Result<
    Tensor,
    candle_core::Error,
>)
    requires
        is_scalar(*t, if double { ElementType::F32 } else { ElementType::F64 }),
    ensures
        converted is Ok,
        is_scalar(converted->Ok_0, if double { ElementType::F64 } else { ElementType::F32 }),
        scalar(converted->Ok_0) == number_converted(scalar(*t), double),
{
    t.to_dtype(if double { DType::F64 } else { DType::F32 })
}

/// `Tensor::mul` on two single numbers.
#[verifier::external_body]
pub(crate) fn multiply_scalars(left: &Tensor, right: &Tensor) -> (product: Result<
    Tensor,
    candle_core::Error,
>)
    requires
        is_scalar(*left, ElementType::F64),
        is_scalar(*right, ElementType::F64),
    ensures
        product is Ok,
        is_scalar(product->Ok_0, ElementType::F64),
        scalar(product->Ok_0) == number_product(ElementType::F64, scalar(*left), scalar(*right)),
{
    left * right
}

/// `Tensor::div` on two single numbers.
#[verifier::external_body]
pub(crate) fn divide_scalars(left: &Tensor, right: &Tensor) -> (quotient: Result<
    Tensor,
    candle_core::Error,
>)
    requires
        is_scalar(*left, ElementType::F64),
        is_scalar(*right, ElementType::F64),
    ensures
        quotient is Ok,
        is_scalar(quotient->Ok_0, ElementType::F64),
        scalar(quotient->Ok_0) == number_quotient(ElementType::F64, scalar(*left), scalar(*right)),
{
    left / right
}

/// `Tensor::sqrt` on a single number.
#[verifier::external_body]
pub(crate) fn root_scalar(t: &Tensor) -> (root: Result<Tensor, candle_core::Error>)
    requires
        is_scalar(*t, ElementType::F64),
    ensures
        root is Ok,
        is_scalar(root->Ok_0, ElementType::F64),
        scalar(root->Ok_0) == number_root(ElementType::F64, scalar(*t)),
{
    t.sqrt()
}

/// `Tensor::recip` on a single number. The reciprocal of 1 is 1.
#[verifier::external_body]
pub(crate) fn reciprocal_scalar(t: &Tensor) -> (inverse: Result<Tensor, candle_core::Error>)
    requires
        is_scalar(*t, ElementType::F64),
    ensures
        inverse is Ok,
        is_scalar(inverse->Ok_0, ElementType::F64),
        scalar(inverse->Ok_0) == number_reciprocal(ElementType::F64, scalar(*t)),
        scalar(*t) == ONE ==> scalar(inverse->Ok_0) == ONE,
{
    t.recip()
}

/// `Tensor::data`, by way of which tensors are archived: the bit pattern of a single
/// number in double precision.
#[verifier::external_body]
pub(crate) fn double_bits(t: &Tensor) -> (bits: u64)
    requires
        is_scalar(*t, ElementType::F64),
    ensures
        bits == tensor_bits(*t)[0],
{
    let mut bytes = [0; 8];
    bytes.copy_from_slice(&t.data());
    u64::from_le_bytes(bytes)
}

/// All NaNs are one number, and a number stands for itself.
pub proof fn lemma_number_of_number(element: ElementType, bits: u64)
    requires
        element.is_full_precision(),
    ensures
        number(element, number(element, bits)) == number(element, bits),
{
}

/// The reciprocal of `count`, by its bit pattern.
pub(crate) fn reciprocal(count: usize) -> (bits: Result<u64, candle_core::Error>)
    requires
        0 < count <= isize::MAX,
    ensures
        bits matches Ok(b) && number(ElementType::F64, b) == reciprocal_bits(count) && number(
            ElementType::F64,
            reciprocal_bits(count),
        ) == reciprocal_bits(count) && (count == 1 ==> b == ONE),
{
    let inverse = reciprocal_scalar(&count_scalar(count)?)?;
    let bits = double_bits(&inverse);
    proof {
        lemma_number_of_number(ElementType::F64, bits);
    }
    Ok(bits)
}

/// The reciprocal of the square root of `count`, by its bit pattern.
pub(crate) fn inverse_root(count: usize) -> (bits: Result<u64, candle_core::Error>)
    requires
        0 < count <= isize::MAX,
    ensures
        bits matches Ok(b) && number(ElementType::F64, b) == inverse_root_bits(count) && number(
            ElementType::F64,
            inverse_root_bits(count),
        ) == inverse_root_bits(count),
{
    let root = root_scalar(&count_scalar(count)?)?;
    let bits = double_bits(&reciprocal_scalar(&root)?);
    proof {
        lemma_number_of_number(ElementType::F64, bits);
    }
    Ok(bits)
}

/// `Tensor::data`, by way of which tensors are archived: the bit pattern of a single
/// number in single precision.
#[verifier::external_body]
pub(crate) fn single_bits(t: &Tensor) -> (bits: u32)
    requires
        is_scalar(*t, ElementType::F32),
    ensures
        bits as u64 == tensor_bits(*t)[0],
{
    let mut bytes = [0; 4];
    bytes.copy_from_slice(&t.data());
    u32::from_le_bytes(bytes)
}

/// `Tensor::from_vec`: a matrix of token ids, row by row.
#[verifier::external_body]
pub(crate) fn token_matrix(ids: Vec<u32>, rows: usize, columns: usize) -> (matrix: Result<
    Tensor,
    candle_core::Error,
>)
    requires
        ids@.len() == rows * columns,
    ensures
        matrix is Ok,
        tensor_element(matrix->Ok_0) == ElementType::U32,
        tensor_dims(matrix->Ok_0) == seq![rows, columns],
        tensor_bits(matrix->Ok_0) == ids@.map_values(|id: u32| id as u64),
{
    Tensor::from_vec(ids, (rows, columns), &Device::Cpu)
}

} // verus!
