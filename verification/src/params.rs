//! Named parameters, and the flat byte buffers in which they travel between the
//! workers and the coordinator. The wire format is safetensors, so a payload is
//! self-describing: names, dimensions and element types.
use crate::tensor::{element_type, value, ElementType, TensorValue};
use candle_core::{Device, Tensor};
use vstd::bytes::{spec_u64_from_le_bytes, u64_from_le_bytes};
use vstd::prelude::*;

verus! {

/// `safetensors::SafeTensorError`: why an archive could not be written.
#[verifier::external_type_specification]
#[verifier::external_body]
pub struct ExSafeTensorError(safetensors::SafeTensorError);

/// Why parameters could not be turned into bytes or back.
#[derive(Debug)]
pub enum ParamsError {
    /// The parameters do not fit the archive format.
    Archive(safetensors::SafeTensorError),
    /// The bytes are no archive of tensors.
    Tensor(candle_core::Error),
    /// The bytes declare tensors whose sizes cannot be counted.
    Oversized,
}

/// Tensors by name. No name occurs twice; the order is the one in which the names
/// were first inserted.
pub struct ParamMap {
    entries: Vec<(String, Tensor)>,
}

/// A map from names to tensors, as the sequence of its entries lists it.
pub open spec fn entries_map(entries: Seq<(Seq<char>, TensorValue)>) -> Map<Seq<char>, TensorValue> {
    Map::new(
        |name: Seq<char>| exists|i: int| 0 <= i < entries.len() && #[trigger] entries[i].0 == name,
        |name: Seq<char>|
            entries[choose|i: int| 0 <= i < entries.len() && #[trigger] entries[i].0 == name].1,
    )
}

/// No name occurs twice in `entries`.
pub open spec fn distinct_names(entries: Seq<(Seq<char>, TensorValue)>) -> bool {
    forall|i: int, j: int|
        0 <= i < entries.len() && 0 <= j < entries.len() && #[trigger] entries[i].0
            == #[trigger] entries[j].0 ==> i == j
}

impl View for ParamMap {
    type V = Map<Seq<char>, TensorValue>;

    open spec fn view(&self) -> Map<Seq<char>, TensorValue> {
        entries_map(self.entries())
    }
}

/// In a list without repeated names, a name maps to the tensor beside it.
pub proof fn lemma_entry_in_map(entries: Seq<(Seq<char>, TensorValue)>, i: int)
    requires
        distinct_names(entries),
        0 <= i < entries.len(),
    ensures
        entries_map(entries).contains_key(entries[i].0),
        entries_map(entries)[entries[i].0] == entries[i].1,
{
    let name = entries[i].0;
    let j = choose|j: int| 0 <= j < entries.len() && #[trigger] entries[j].0 == name;
    assert(entries[j].0 == entries[i].0);
}

/// Every element of every tensor has full precision.
pub open spec fn all_full_precision(params: Map<Seq<char>, TensorValue>) -> bool {
    forall|name: Seq<char>| #[trigger] params.contains_key(name) ==> params[name].element.is_full_precision()
}

/// No tensor is of a packed element type, whose bytes cannot be read out.
pub open spec fn is_storable(params: Map<Seq<char>, TensorValue>) -> bool {
    forall|name: Seq<char>| #[trigger] params.contains_key(name) ==> !(params[name].element is Packed)
}

impl ParamMap {
    /// The names with what their tensors hold, in order.
    pub closed spec fn entries(self) -> Seq<(Seq<char>, TensorValue)> {
        self.entries@.map_values(|e: (String, Tensor)| (e.0@, value(e.1)))
    }

    /// No name occurs twice.
    pub open spec fn wf(self) -> bool {
        distinct_names(self.entries())
    }

    /// No parameters.
    pub fn new() -> (params: ParamMap)
        ensures
            params.wf(),
            params.entries() == Seq::<(Seq<char>, TensorValue)>::empty(),
            params@ == Map::<Seq<char>, TensorValue>::empty(),
    {
        let params = ParamMap { entries: Vec::new() };
        assert(params.entries() =~= Seq::empty());
        assert(params@ =~= Map::empty());
        params
    }

    /// The number of parameters.
    pub fn len(&self) -> (n: usize)
        ensures
            n == self.entries().len(),
    {
        self.entries.len()
    }

    /// The name of the parameter in place `i`.
    pub fn name_at(&self, i: usize) -> (name: &String)
        requires
            i < self.entries().len(),
        ensures
            name@ == self.entries()[i as int].0,
    {
        &self.entries[i].0
    }

    /// The tensor in place `i`.
    pub fn tensor_at(&self, i: usize) -> (tensor: &Tensor)
        requires
            i < self.entries().len(),
        ensures
            value(*tensor) == self.entries()[i as int].1,
    {
        &self.entries[i].1
    }

    /// The place of the parameter called `name`.
    pub fn position(&self, name: &String) -> (place: Option<usize>)
        requires
            self.wf(),
        ensures
            place is Some <==> self@.contains_key(name@),
            place matches Some(i) ==> i < self.entries().len() && self.entries()[i as int].0
                == name@ && self.entries()[i as int].1 == self@[name@],
    {
        let mut i: usize = 0;
        while i < self.entries.len()
            invariant
                self.wf(),
                i <= self.entries.len(),
                self.entries().len() == self.entries.len(),
                forall|j: int| 0 <= j < i ==> #[trigger] self.entries()[j].0 != name@,
            decreases self.entries.len() - i,
        {
            assert(self.entries()[i as int].0 == self.entries@[i as int].0@);
            if self.entries[i].0 == *name {
                proof {
                    lemma_entry_in_map(self.entries(), i as int);
                }
                return Some(i);
            }
            i = i + 1;
        }
        None
    }

    /// The tensor called `name`.
    pub fn get(&self, name: &String) -> (tensor: Option<&Tensor>)
        requires
            self.wf(),
        ensures
            tensor is Some <==> self@.contains_key(name@),
            tensor matches Some(t) ==> value(*t) == self@[name@],
    {
        match self.position(name) {
            Some(i) => Some(self.tensor_at(i)),
            None => None,
        }
    }

    /// Puts `tensor` into place `i`, under the name that stands there.
    pub fn set_at(&mut self, i: usize, tensor: Tensor)
        requires
            old(self).wf(),
            i < old(self).entries().len(),
        ensures
            final(self).wf(),
            final(self).entries() == old(self).entries().update(
                i as int,
                (old(self).entries()[i as int].0, value(tensor)),
            ),
            final(self)@ == old(self)@.insert(old(self).entries()[i as int].0, value(tensor)),
    {
        let ghost before = self.entries();
        let name = self.entries[i].0.clone();
        assert(name@ == before[i as int].0);
        self.entries.set(i, (name, tensor));
        proof {
            let after = self.entries();
            assert(after =~= before.update(i as int, (before[i as int].0, value(tensor))));
            lemma_names_kept(before, i as int, value(tensor));
        }
    }

    /// Puts `tensor` in under `name`, in place of what was there under that name.
    pub fn insert(&mut self, name: String, tensor: Tensor)
        requires
            old(self).wf(),
        ensures
            final(self).wf(),
            final(self)@ == old(self)@.insert(name@, value(tensor)),
            !old(self)@.contains_key(name@) ==> final(self).entries() == old(self).entries().push(
                (name@, value(tensor)),
            ),
    {
        let ghost before = self.entries();
        match self.position(&name) {
            Some(i) => self.set_at(i, tensor),
            None => {
                self.entries.push((name, tensor));
                proof {
                    assert(self.entries() =~= before.push((name@, value(tensor))));
                    lemma_name_added(before, name@, value(tensor));
                }
            },
        }
    }

    /// Whether all parameters have single or double precision.
    pub fn full_precision(&self) -> (b: bool)
        requires
            self.wf(),
        ensures
            b == all_full_precision(self@),
    {
        let mut i: usize = 0;
        while i < self.entries.len()
            invariant
                self.wf(),
                i <= self.entries.len(),
                self.entries().len() == self.entries.len(),
                forall|j: int|
                    0 <= j < i ==> (#[trigger] self.entries()[j]).1.element.is_full_precision(),
            decreases self.entries.len() - i,
        {
            assert(self.entries()[i as int].1 == value(self.entries@[i as int].1));
            if !element_type(&self.entries[i].1).full_precision() {
                proof {
                    lemma_entry_in_map(self.entries(), i as int);
                }
                return false;
            }
            i = i + 1;
        }
        assert forall|name: Seq<char>| #[trigger] self@.contains_key(name) implies
            self@[name].element.is_full_precision() by {
            let j = choose|j: int| 0 <= j < self.entries().len() && #[trigger] self.entries()[j].0 == name;
            lemma_entry_in_map(self.entries(), j);
        }
        true
    }
}

/// Replacing the tensor of one entry replaces it in the map and nowhere else.
proof fn lemma_names_kept(entries: Seq<(Seq<char>, TensorValue)>, i: int, tensor: TensorValue)
    requires
        distinct_names(entries),
        0 <= i < entries.len(),
    ensures
        distinct_names(entries.update(i, (entries[i].0, tensor))),
        entries_map(entries.update(i, (entries[i].0, tensor))) == entries_map(entries).insert(
            entries[i].0,
            tensor,
        ),
{
    let after = entries.update(i, (entries[i].0, tensor));
    assert forall|j: int, k: int|
        0 <= j < after.len() && 0 <= k < after.len() && #[trigger] after[j].0
            == #[trigger] after[k].0 implies j == k by {
        assert(entries[j].0 == entries[k].0);
    }
    let left = entries_map(after);
    let right = entries_map(entries).insert(entries[i].0, tensor);
    assert forall|name: Seq<char>| left.contains_key(name) <==> right.contains_key(name) by {
        if left.contains_key(name) {
            let j = choose|j: int| 0 <= j < after.len() && #[trigger] after[j].0 == name;
            assert(entries[j].0 == name);
        }
        if right.contains_key(name) && name != entries[i].0 {
            let j = choose|j: int| 0 <= j < entries.len() && #[trigger] entries[j].0 == name;
            assert(after[j].0 == name);
        }
        if name == entries[i].0 {
            assert(after[i].0 == name);
        }
    }
    assert forall|name: Seq<char>| #[trigger] left.contains_key(name) implies left[name]
        == right[name] by {
        let j = choose|j: int| 0 <= j < after.len() && #[trigger] after[j].0 == name;
        lemma_entry_in_map(after, j);
        lemma_entry_in_map(entries, j);
    }
    assert(left =~= right);
}

/// Appending an entry under a new name adds it to the map.
proof fn lemma_name_added(
    entries: Seq<(Seq<char>, TensorValue)>,
    name: Seq<char>,
    tensor: TensorValue,
)
    requires
        distinct_names(entries),
        !entries_map(entries).contains_key(name),
    ensures
        distinct_names(entries.push((name, tensor))),
        entries_map(entries.push((name, tensor))) == entries_map(entries).insert(name, tensor),
{
    let after = entries.push((name, tensor));
    assert forall|j: int, k: int|
        0 <= j < after.len() && 0 <= k < after.len() && #[trigger] after[j].0
            == #[trigger] after[k].0 implies j == k by {
        if j < entries.len() {
            lemma_entry_in_map(entries, j);
        }
        if k < entries.len() {
            lemma_entry_in_map(entries, k);
        }
        if j < entries.len() && k < entries.len() {
            assert(entries[j].0 == entries[k].0);
        }
    }
    let left = entries_map(after);
    let right = entries_map(entries).insert(name, tensor);
    assert(after[entries.len() as int].0 == name);
    assert forall|n: Seq<char>| left.contains_key(n) <==> right.contains_key(n) by {
        if left.contains_key(n) && n != name {
            let j = choose|j: int| 0 <= j < after.len() && #[trigger] after[j].0 == n;
            assert(entries[j].0 == n);
        }
        if right.contains_key(n) && n != name {
            let j = choose|j: int| 0 <= j < entries.len() && #[trigger] entries[j].0 == n;
            assert(after[j].0 == n);
        }
    }
    assert forall|n: Seq<char>| #[trigger] left.contains_key(n) implies left[n] == right[n] by {
        let j = choose|j: int| 0 <= j < after.len() && #[trigger] after[j].0 == n;
        lemma_entry_in_map(after, j);
        if j < entries.len() {
            lemma_entry_in_map(entries, j);
        }
    }
    assert(left =~= right);
}

/// The archive that safetensors writes of the parameters, where it writes one.
pub uninterp spec fn archived(params: Map<Seq<char>, TensorValue>) -> Option<Seq<u8>>;

/// The length of the archive that safetensors writes of parameters with these element types
/// and dimensions, where it writes one.
pub uninterp spec fn archive_length(
    layout: Map<Seq<char>, (ElementType, Seq<usize>)>,
) -> Option<nat>;

/// The parameters that candle reads out of an archive, where it is one.
pub uninterp spec fn unarchived(bytes: Seq<u8>) -> Option<Map<Seq<char>, TensorValue>>;

/// What safetensors reads out of the header of an archive, where it is one: the dimensions
/// of the tensors, and the number of bytes that their elements take up.
pub uninterp spec fn declared(header: Seq<u8>) -> Option<(Set<Seq<usize>>, usize)>;

/// The one name that the format keeps for itself.
pub open spec fn reserved_name() -> Seq<char> {
    "__metadata__"@
}

/// The parameters without their values: what an archive's header tells of them.
pub open spec fn layout(params: Map<Seq<char>, TensorValue>) -> Map<
    Seq<char>,
    (ElementType, Seq<usize>),
> {
    params.map_values(|t: TensorValue| (t.element, t.dims))
}

/// The product of the dimensions from place `k` on.
pub open spec fn rear_volume(dims: Seq<usize>, k: int) -> int
    decreases dims.len() - k,
{
    if k >= dims.len() {
        1
    } else {
        dims[k] * rear_volume(dims, k + 1)
    }
}

/// The distances in storage between neighbours along each dimension can be counted.
pub open spec fn strides_fit(dims: Seq<usize>) -> bool {
    forall|k: int| 0 <= k <= dims.len() ==> #[trigger] rear_volume(dims, k) <= usize::MAX
}

/// The header of an archive: behind its own length in eight bytes, lowest first.
pub open spec fn header_of(bytes: Seq<u8>) -> Option<Seq<u8>> {
    let length = spec_u64_from_le_bytes(bytes.take(8));
    if bytes.len() < 8 || length > bytes.len() - 8 {
        None
    } else {
        Some(bytes.subrange(8, 8 + length))
    }
}

/// All sizes that an archive declares can be counted: that of the whole archive, and the
/// strides of every tensor. An archive without a header that can be read declares none.
pub open spec fn is_countable(bytes: Seq<u8>) -> bool {
    header_of(bytes) matches Some(header) ==> (declared(header) matches Some(d) ==> {
        &&& d.1 + 8 + header.len() <= usize::MAX
        &&& forall|dims: Seq<usize>| #[trigger] d.0.contains(dims) ==> strides_fit(dims)
    })
}

/// The parameters in an archive, where it is one and all sizes in it can be counted.
pub open spec fn restored(bytes: Seq<u8>) -> Option<Map<Seq<char>, TensorValue>> {
    if is_countable(bytes) {
        unarchived(bytes)
    } else {
        None
    }
}

/// Parameters that come back from their archive: none has the reserved name, and the strides
/// of each can be counted.
pub open spec fn is_restorable(params: Map<Seq<char>, TensorValue>) -> bool {
    &&& !params.contains_key(reserved_name())
    &&& forall|name: Seq<char>| #[trigger] params.contains_key(name) ==> strides_fit(params[name].dims)
}

/// `safetensors::serialize` on all entries, without metadata of its own. The archive
/// depends on the names and tensors alone: the crate sorts them. Whether there is one and
/// how long it is depends on the header, which holds names, element types and dimensions,
/// and on the number of elements. Reading it back with
/// `candle_core::safetensors::load_buffer` gives the same parameters, unless one of
/// them has the name that the format reserves; the header declares their dimensions and
/// what the archive holds behind it. As every `Vec` of bytes, it is no longer than
/// `isize::MAX`.
#[verifier::external_body]
fn write_archive(params: &ParamMap) -> (archive: Result<Vec<u8>, safetensors::SafeTensorError>)
    requires
        params.wf(),
        is_storable(params@),
    ensures
        archive is Ok <==> archived(params@) is Some,
        archive is Ok ==> archive->Ok_0@ == archived(params@)->0,
        archive is Ok ==> archive->Ok_0@.len() <= isize::MAX,
        archive is Ok <==> archive_length(layout(params@)) is Some,
        archive is Ok ==> archive->Ok_0@.len() == archive_length(layout(params@))->0,
        archive is Ok && is_restorable(params@) ==> is_countable(archive->Ok_0@),
        archive is Ok && is_restorable(params@) ==> unarchived(archive->Ok_0@) == Some(params@),
{
    safetensors::serialize(params.entries.iter().map(|e| (&e.0, &e.1)), None)
}

/// `serde_json::from_str` on `safetensors::tensor::Metadata`: what the header of an archive
/// declares. It is a function of the header's bytes, but for the order of the tensors.
#[verifier::external_body]
fn read_header(header: &[u8]) -> (found: Option<(Vec<Vec<usize>>, usize)>)
    ensures
        found is Some <==> declared(header@) is Some,
        found is Some ==> (found->Some_0).0@.map_values(|dims: Vec<usize>| dims@).to_set()
            == (declared(header@)->Some_0).0,
        found is Some ==> (found->Some_0).1 == (declared(header@)->Some_0).1,
{
    let text = std::str::from_utf8(header).ok()?;
    let metadata: safetensors::tensor::Metadata = serde_json::from_str(text).ok()?;
    let shapes = metadata.tensors().into_values().map(|info| info.shape.clone()).collect();
    Some((shapes, metadata.data_len()))
}

/// `candle_core::safetensors::load_buffer` onto the CPU: the parameters are a function
/// of the bytes; in which order they come is left open. The crates add up the length of an
/// archive and multiply its dimensions into strides without a test for overflow.
#[verifier::external_body]
fn read_archive(bytes: &[u8]) -> (params: Result<ParamMap, candle_core::Error>)
    requires
        is_countable(bytes@),
    ensures
        params is Ok <==> unarchived(bytes@) is Some,
        params is Ok ==> params->Ok_0.wf(),
        params is Ok ==> params->Ok_0@ == unarchived(bytes@)->0,
{
    let tensors = candle_core::safetensors::load_buffer(bytes, &Device::Cpu)?;
    Ok(ParamMap { entries: tensors.into_iter().collect() })
}

/// Whether the strides of a tensor of these dimensions can be counted.
fn strides_can_be_counted(dims: &Vec<usize>) -> (b: bool)
    ensures
        b == strides_fit(dims@),
{
    let mut k: usize = dims.len();
    let mut volume: usize = 1;
    while k > 0
        invariant
            k <= dims@.len(),
            volume == rear_volume(dims@, k as int),
            forall|j: int| k <= j <= dims@.len() ==> #[trigger] rear_volume(dims@, j) <= usize::MAX,
        decreases k,
    {
        assert(rear_volume(dims@, k - 1) == dims@[k - 1] * volume);
        match dims[k - 1].checked_mul(volume) {
            Some(product) => {
                volume = product;
            },
            None => {
                return false;
            },
        }
        k = k - 1;
    }
    true
}

/// Whether all sizes that an archive declares can be counted.
fn sizes_can_be_counted(bytes: &[u8]) -> (b: bool)
    ensures
        b == is_countable(bytes@),
{
    if bytes.len() < 8 {
        return true;
    }
    let prefix = &bytes[0..8];
    assert(prefix@ =~= bytes@.take(8));
    let length = u64_from_le_bytes(prefix);
    if length > (bytes.len() - 8) as u64 {
        return true;
    }
    let header = &bytes[8..8 + length as usize];
    assert(header@ =~= bytes@.subrange(8, 8 + length));
    assert(header_of(bytes@) == Some(header@));
    let (shapes, data_length) = match read_header(header) {
        Some(found) => found,
        None => return true,
    };
    let ghost listed = shapes@.map_values(|dims: Vec<usize>| dims@);
    let ghost set = (declared(header@)->Some_0).0;
    assert(listed.to_set() == set);
    if data_length > usize::MAX - 8 - length as usize {
        return false;
    }
    let mut i: usize = 0;
    while i < shapes.len()
        invariant
            i <= shapes@.len(),
            listed == shapes@.map_values(|dims: Vec<usize>| dims@),
            listed.to_set() == set,
            header_of(bytes@) == Some(header@),
            declared(header@) is Some,
            (declared(header@)->Some_0).0 == set,
            forall|j: int| 0 <= j < i ==> strides_fit(#[trigger] listed[j]),
        decreases shapes@.len() - i,
    {
        assert(listed[i as int] == shapes@[i as int]@);
        if !strides_can_be_counted(&shapes[i]) {
            assert(set.contains(listed[i as int]));
            return false;
        }
        i = i + 1;
    }
    assert forall|dims: Seq<usize>| #[trigger] set.contains(dims) implies strides_fit(dims) by {
        assert(listed.contains(dims));
        let j = listed.index_of(dims);
        assert(strides_fit(listed[j]));
    }
    true
}

/// Serialize parameters to a safetensors byte buffer.
pub fn serialize(params: &ParamMap) -> (bytes: Result<Vec<u8>, ParamsError>)
    requires
        params.wf(),
        is_storable(params@),
    ensures
        bytes is Ok <==> archived(params@) is Some,
        bytes is Ok <==> archive_length(layout(params@)) is Some,
        bytes matches Ok(b) ==> Some(b@) == archived(params@) && b@.len() <= isize::MAX && Some(
            b@.len(),
        ) == archive_length(layout(params@)),
        is_restorable(params@) ==> (bytes matches Ok(b) ==> restored(b@) == Some(params@)),
        bytes matches Err(e) ==> e is Archive,
{
    match write_archive(params) {
        Ok(bytes) => Ok(bytes),
        Err(e) => Err(ParamsError::Archive(e)),
    }
}

/// Inverse of [`serialize`]: load a safetensors byte buffer back.
pub fn deserialize(bytes: &[u8]) -> (params: Result<ParamMap, ParamsError>)
    ensures
        params is Ok <==> restored(bytes@) is Some,
        params matches Ok(p) ==> p.wf() && Some(p@) == restored(bytes@),
        params matches Err(e) ==> if is_countable(bytes@) {
            e is Tensor
        } else {
            e is Oversized
        },
{
    if !sizes_can_be_counted(bytes) {
        return Err(ParamsError::Oversized);
    }
    match read_archive(bytes) {
        Ok(params) => Ok(params),
        Err(e) => Err(ParamsError::Tensor(e)),
    }
}

/// Bytes a single worker moves per all-reduce event: it uploads its local parameters
/// and downloads the reduced result, so twice the payload as it is really encoded. The cost
/// depends on the names, element types and dimensions of the parameters, not on their
/// values.
pub fn allreduce_bytes_per_worker(params: &ParamMap) -> (bytes: Result<usize, ParamsError>)
    requires
        params.wf(),
        is_storable(params@),
    ensures
        bytes is Ok <==> archived(params@) is Some,
        bytes matches Ok(n) ==> n == 2 * archived(params@)->0.len(),
        bytes is Ok <==> archive_length(layout(params@)) is Some,
        bytes matches Ok(n) ==> n == 2 * archive_length(layout(params@))->0,
        bytes matches Err(e) ==> e is Archive,
{
    match serialize(params) {
        Ok(payload) => Ok(2 * payload.len()),
        Err(e) => Err(e),
    }
}

/// The cost of an all-reduce event depends on the shapes alone: parameters with the same
/// names, element types and dimensions have archives of the same length, whatever their
/// values.
pub proof fn law_cost_depends_on_shapes(
    a: Map<Seq<char>, TensorValue>,
    b: Map<Seq<char>, TensorValue>,
)
    requires
        a.dom() == b.dom(),
        forall|name: Seq<char>| #[trigger]
            a.contains_key(name) ==> a[name].element == b[name].element && a[name].dims
                == b[name].dims,
    ensures
        archive_length(layout(a)) == archive_length(layout(b)),
{
    assert forall|name: Seq<char>| #[trigger] layout(a).contains_key(name) implies layout(a)[name]
        == layout(b)[name] by {
        assert(a.contains_key(name));
    }
    assert(layout(a) =~= layout(b));
}

/// The product of a list of dimensions.
pub open spec fn product_of(dims: Seq<usize>) -> int {
    dims.fold_right(|d: usize, rest: int| d * rest, 1)
}

/// The volume behind a place is the product of the dimensions there.
proof fn lemma_rear_volume(dims: Seq<usize>, k: int)
    requires
        0 <= k <= dims.len(),
    ensures
        rear_volume(dims, k) == product_of(dims.skip(k)),
    decreases dims.len() - k,
{
    let times = |d: usize, rest: int| d * rest;
    let rest = dims.skip(k);
    if k < dims.len() {
        lemma_rear_volume(dims, k + 1);
        assert(rest.drop_first() =~= dims.skip(k + 1));
        rest.lemma_fold_right_alt(times, 1);
        rest.drop_first().lemma_fold_right_alt(times, 1);
        reveal_with_fuel(Seq::fold_right_alt, 2);
    } else {
        assert(rest =~= Seq::<usize>::empty());
        reveal_with_fuel(Seq::fold_right, 2);
    }
}

/// No archive is refused without need: what candle reads out of the bytes is what comes back,
/// unless they declare a tensor, or an archive, of which the size cannot be counted.
pub proof fn law_only_oversized_archives_are_refused(bytes: Seq<u8>)
    ensures
        ({
            let length = spec_u64_from_le_bytes(bytes.take(8));
            let has_header = bytes.len() >= 8 && length <= bytes.len() - 8;
            let header = bytes.subrange(8, 8 + length);
            let sizes = declared(header)->Some_0;
            let too_large = has_header && declared(header) is Some && (sizes.1 + 8 + length
                > usize::MAX || exists|dims: Seq<usize>, k: int|
                sizes.0.contains(dims) && 0 <= k <= dims.len() && #[trigger] product_of(
                    dims.skip(k),
                ) > usize::MAX);
            &&& restored(bytes) == (if too_large {
                None
            } else {
                unarchived(bytes)
            })
            &&& is_countable(bytes) <==> !too_large
        }),
{
    let length = spec_u64_from_le_bytes(bytes.take(8));
    let has_header = bytes.len() >= 8 && length <= bytes.len() - 8;
    let header = bytes.subrange(8, 8 + length);
    if has_header && declared(header) is Some {
        assert(header_of(bytes) == Some(header));
        let shapes = (declared(header)->Some_0).0;
        if forall|dims: Seq<usize>| #[trigger] shapes.contains(dims) ==> strides_fit(dims) {
            assert forall|dims: Seq<usize>, k: int|
                shapes.contains(dims) && 0 <= k <= dims.len() implies #[trigger] product_of(
                dims.skip(k),
            ) <= usize::MAX by {
                assert(strides_fit(dims));
                lemma_rear_volume(dims, k);
            }
        } else {
            let dims = choose|dims: Seq<usize>|
                #[trigger] shapes.contains(dims) && !strides_fit(dims);
            let k = choose|k: int|
                0 <= k <= dims.len() && #[trigger] rear_volume(dims, k) > usize::MAX;
            lemma_rear_volume(dims, k);
            assert(product_of(dims.skip(k)) > usize::MAX);
        }
    }
}

/// Parameters come back from their archive, unless one of them has the one name that the
/// format keeps for itself or strides that cannot be counted.
pub proof fn law_which_parameters_come_back(params: Map<Seq<char>, TensorValue>)
    requires
        !params.contains_key("__metadata__"@),
        forall|name: Seq<char>, k: int|
            params.contains_key(name) && 0 <= k <= params[name].dims.len()
                ==> #[trigger] product_of(params[name].dims.skip(k)) <= usize::MAX,
    ensures
        is_restorable(params),
{
    assert forall|name: Seq<char>| #[trigger] params.contains_key(name) implies strides_fit(
        params[name].dims,
    ) by {
        let dims = params[name].dims;
        assert forall|k: int| 0 <= k <= dims.len() implies #[trigger] rear_volume(dims, k)
            <= usize::MAX by {
            lemma_rear_volume(dims, k);
            assert(product_of(params[name].dims.skip(k)) <= usize::MAX);
        }
    }
}

} // verus!
