//! A minimal GPT-style decoder-only transformer for character-level language modelling:
//! which parameters it takes, and how a batch of token ids passes through its layers.
use crate::layers::{
    added_to_each, addition_gives, all_have_rows, all_positive, broadcast_add, columns, contiguous,
    coordinates, cross_entropy, cross_entropy_gives, dimensions, embed, exchanged, gelu, gelu_gives,
    ids_below, ids_fit, is_single, linear, linear_gives, looked_up, narrow_last,
    normalization_gives, normalize, numbers, offset, product, product_gives, reshape, reshaped,
    single_matrix, softmax, softmax_gives, swapped, tensor_contiguous, tensor_stacked, transpose,
    volume, NEGATIVE_INFINITY,
};
use crate::model::{qkv_offset, qkv_start, Config, LayerKind, LayerSpec};
use crate::params::ParamMap;
use crate::tensor::{
    add_tensors, element_type, inverse_root, inverse_root_bits, is_scalar, number, scale_tensor,
    scaled, share, sum, tensor_dims, tensor_element, value, ElementType, TensorValue,
};
use candle_core::Tensor;
use vstd::arithmetic::div_mod::{lemma_fundamental_div_mod, lemma_fundamental_div_mod_converse};
use vstd::prelude::*;

verus! {

/// Why the model could not be built or applied.
#[derive(Debug)]
pub enum ModelError {
    /// There is no parameter of this name.
    Missing { name: String },
    /// The parameter of this name has other dimensions than its layer, or does not hold
    /// single-precision numbers.
    Unfit { name: String },
    /// The token ids do not form a matrix, or an empty one.
    Shape,
    /// The heads do not take up the embedding exactly.
    Heads,
    /// A token id lies beyond the vocabulary, or the elements are no ids.
    Tensor(candle_core::Error),
}

/// What is wrong with the parameters.
#[verifier::ext_equal]
pub enum Flaw {
    Missing(Seq<char>),
    Unfit(Seq<char>),
}

impl ModelError {
    /// Whether `self` tells of `flaw`.
    pub open spec fn reports(self, flaw: Flaw) -> bool {
        match flaw {
            Flaw::Missing(name) => self matches ModelError::Missing { name: n } && n@ == name,
            Flaw::Unfit(name) => self matches ModelError::Unfit { name: n } && n@ == name,
        }
    }
}

/// The dimensions of a layer's weight.
pub open spec fn weight_dims(kind: LayerKind) -> Seq<usize> {
    match kind {
        LayerKind::Embedding { rows, dim } => seq![rows, dim],
        LayerKind::Linear { inputs, outputs } => seq![outputs, inputs],
        LayerKind::LayerNorm { size } => seq![size],
    }
}

/// The dimensions of a layer's bias, where it has one.
pub open spec fn bias_dims(kind: LayerKind) -> Option<Seq<usize>> {
    match kind {
        LayerKind::Embedding { .. } => None,
        LayerKind::Linear { outputs, .. } => Some(seq![outputs]),
        LayerKind::LayerNorm { size } => Some(seq![size]),
    }
}

/// The name under which a layer's weight is kept.
pub open spec fn weight_name(path: Seq<char>) -> Seq<char> {
    path + ".weight"@
}

/// The name under which a layer's bias is kept.
pub open spec fn bias_name(path: Seq<char>) -> Seq<char> {
    path + ".bias"@
}

/// What is wrong with the parameter called `name`, which should have dimensions `dims`.
pub open spec fn param_flaw(
    params: Map<Seq<char>, TensorValue>,
    name: Seq<char>,
    dims: Seq<usize>,
) -> Option<Flaw> {
    if !params.contains_key(name) {
        Some(Flaw::Missing(name))
    } else if params[name].element != ElementType::F32 || params[name].dims != dims {
        Some(Flaw::Unfit(name))
    } else {
        None
    }
}

/// What is wrong with the parameters of the layer of the given path and kind.
pub open spec fn layer_flaw(
    params: Map<Seq<char>, TensorValue>,
    layer: (Seq<char>, LayerKind),
) -> Option<Flaw> {
    let flaw = param_flaw(params, weight_name(layer.0), weight_dims(layer.1));
    if flaw is Some {
        flaw
    } else {
        match bias_dims(layer.1) {
            None => None,
            Some(dims) => param_flaw(params, bias_name(layer.0), dims),
        }
    }
}

/// What the parameters of a layer hold, each element by its number.
#[verifier::ext_equal]
pub struct LayerValue {
    pub weight: TensorValue,
    pub bias: Option<TensorValue>,
}

/// The parameters of the layer of the given path and kind.
pub open spec fn layer_value(
    params: Map<Seq<char>, TensorValue>,
    layer: (Seq<char>, LayerKind),
) -> LayerValue {
    LayerValue {
        weight: params[weight_name(layer.0)].numeric(),
        bias: match bias_dims(layer.1) {
            None => None,
            Some(dims) => Some(params[bias_name(layer.0)].numeric()),
        },
    }
}

/// The parameters of one layer.
struct Layer {
    weight: Tensor,
    bias: Option<Tensor>,
}

/// `layer` has what a layer of this kind needs.
spec fn layer_fits(layer: Layer, kind: LayerKind) -> bool {
    &&& is_single(layer.weight, weight_dims(kind))
    &&& tensor_contiguous(layer.weight)
    &&& match bias_dims(kind) {
        None => layer.bias is None,
        Some(dims) => layer.bias matches Some(b) && is_single(b, dims) && tensor_contiguous(b),
    }
}

impl Layer {
    spec fn holds(self) -> LayerValue {
        LayerValue {
            weight: numbers(self.weight),
            bias: match self.bias {
                None => None,
                Some(b) => Some(numbers(b)),
            },
        }
    }
}

/// The parameter called `path` followed by `suffix`, in row-major order.
fn take_param(params: &ParamMap, path: &str, suffix: &str, dims: &[usize]) -> (param: Result<
    Tensor,
    ModelError,
>)
    requires
        params.wf(),
    ensures
        match param_flaw(params@, path@ + suffix@, dims@) {
            Some(flaw) => param matches Err(e) && e.reports(flaw),
            None => param matches Ok(t) && is_single(t, dims@) && tensor_contiguous(t)
                && numbers(t) == params@[path@ + suffix@].numeric(),
        },
{
    let mut name = path.to_owned();
    name.append(suffix);
    match params.get(&name) {
        None => Err(ModelError::Missing { name }),
        Some(tensor) => {
            if !matches!(element_type(tensor), ElementType::F32) {
                return Err(ModelError::Unfit { name });
            }
            let found = dimensions(tensor);
            if !same_dims(found.as_slice(), dims) {
                return Err(ModelError::Unfit { name });
            }
            match contiguous(tensor) {
                Ok(t) => {
                    assert(value(t) =~= value(*tensor));
                    Ok(t)
                },
                Err(e) => Err(ModelError::Tensor(e)),
            }
        },
    }
}

/// Whether two lists of dimensions agree.
fn same_dims(a: &[usize], b: &[usize]) -> (same: bool)
    ensures
        same == (a@ == b@),
{
    if a.len() != b.len() {
        return false;
    }
    let mut i: usize = 0;
    while i < a.len()
        invariant
            i <= a@.len(),
            a@.len() == b@.len(),
            forall|j: int| 0 <= j < i ==> a@[j] == b@[j],
        decreases a@.len() - i,
    {
        if a[i] != b[i] {
            return false;
        }
        i = i + 1;
    }
    assert(a@ =~= b@);
    true
}

/// The parameters of the layer `spec`.
fn take_layer(params: &ParamMap, spec: &LayerSpec) -> (layer: Result<Layer, ModelError>)
    requires
        params.wf(),
    ensures
        match layer_flaw(params@, spec.entry()) {
            Some(flaw) => layer matches Err(e) && e.reports(flaw),
            None => layer matches Ok(l) && layer_fits(l, spec.kind) && l.holds() == layer_value(
                params@,
                spec.entry(),
            ),
        },
{
    let path = spec.path.as_str();
    match spec.kind {
        LayerKind::Embedding { rows, dim } => {
            let table = [rows, dim];
            assert(table@ =~= seq![rows, dim]);
            let weight = take_param(params, path, ".weight", &table)?;
            Ok(Layer { weight, bias: None })
        },
        LayerKind::Linear { inputs, outputs } => {
            let matrix = [outputs, inputs];
            let row = [outputs];
            assert(matrix@ =~= seq![outputs, inputs]);
            assert(row@ =~= seq![outputs]);
            let weight = take_param(params, path, ".weight", &matrix)?;
            let bias = take_param(params, path, ".bias", &row)?;
            Ok(Layer { weight, bias: Some(bias) })
        },
        LayerKind::LayerNorm { size } => {
            let row = [size];
            assert(row@ =~= seq![size]);
            let weight = take_param(params, path, ".weight", &row)?;
            let bias = take_param(params, path, ".bias", &row)?;
            Ok(Layer { weight, bias: Some(bias) })
        },
    }
}

/// A transformer with its parameters.
pub struct GptModel {
    cfg: Config,
    layers: Vec<Layer>,
}

/// A transformer as its shape and the numbers in its layers, in the order of
/// `Config::all_layers`.
#[verifier::ext_equal]
pub struct Network {
    pub cfg: Config,
    pub layers: Seq<LayerValue>,
}

impl View for GptModel {
    type V = Network;

    closed spec fn view(&self) -> Network {
        Network { cfg: self.cfg, layers: self.layers@.map_values(|l: Layer| l.holds()) }
    }
}

impl GptModel {
    /// Every layer has its parameters.
    pub closed spec fn wf(self) -> bool {
        &&& self.cfg.n_embd > 0
        &&& self.cfg.n_layer > 0 ==> self.cfg.n_head > 0
        &&& 4 * self.cfg.n_embd <= usize::MAX
        &&& self.layers@.len() == self.cfg.all_layers().len()
        &&& forall|j: int|
            0 <= j < self.layers@.len() ==> layer_fits(
                #[trigger] self.layers@[j],
                self.cfg.all_layers()[j].1,
            )
    }

    /// The model of shape `cfg` with the parameters `params`. Every layer's parameters have
    /// to be there, with the layer's dimensions and in single precision; the first that is
    /// not is reported.
    pub fn new(cfg: &Config, params: &ParamMap) -> (model: Result<GptModel, ModelError>)
        requires
            params.wf(),
            cfg.n_embd > 0,
            cfg.n_layer > 0 ==> cfg.n_head > 0,
            4 * cfg.n_embd <= usize::MAX,
        ensures
            model is Ok <==> (forall|j: int|
                0 <= j < cfg.all_layers().len() ==> layer_flaw(
                    params@,
                    #[trigger] cfg.all_layers()[j],
                ) is None),
            model matches Ok(m) ==> {
                &&& m.wf()
                &&& m@.cfg == *cfg
                &&& m@.layers == cfg.all_layers().map_values(
                    |l: (Seq<char>, LayerKind)| layer_value(params@, l),
                )
            },
            model matches Err(e) ==> exists|j: int|
                {
                    &&& 0 <= j < cfg.all_layers().len()
                    &&& layer_flaw(params@, #[trigger] cfg.all_layers()[j]) is Some
                    &&& e.reports(layer_flaw(params@, cfg.all_layers()[j])->Some_0)
                    &&& forall|k: int|
                        0 <= k < j ==> layer_flaw(params@, #[trigger] cfg.all_layers()[k]) is None
                },
    {
        let specs = cfg.layers();
        let mut layers: Vec<Layer> = Vec::new();
        let ghost all = cfg.all_layers();
        assert(specs@.len() == all.len());
        assert forall|j: int| 0 <= j < all.len() implies #[trigger] specs@[j].entry() == all[j] by {
            assert(specs@.map_values(|l: LayerSpec| l.entry())[j] == specs@[j].entry());
        }
        while layers.len() < specs.len()
            invariant
                params.wf(),
                layers@.len() <= specs@.len(),
                specs@.len() == all.len(),
                all == cfg.all_layers(),
                forall|j: int| 0 <= j < all.len() ==> #[trigger] specs@[j].entry() == all[j],
                forall|j: int|
                    0 <= j < layers@.len() ==> layer_fits(#[trigger] layers@[j], all[j].1)
                        && layers@[j].holds() == layer_value(params@, all[j]) && layer_flaw(
                        params@,
                        all[j],
                    ) is None,
            decreases specs@.len() - layers@.len(),
        {
            let i = layers.len();
            assert(specs@[i as int].entry() == all[i as int]);
            match take_layer(params, &specs[i]) {
                Ok(layer) => layers.push(layer),
                Err(e) => {
                    assert forall|k: int| 0 <= k < i implies layer_flaw(params@, #[trigger] all[k]) is None by {
                        assert(layer_fits(layers@[k], all[k].1));
                    }
                    return Err(e);
                },
            }
        }
        let cfg = Config {
            vocab_size: cfg.vocab_size,
            block_size: cfg.block_size,
            n_embd: cfg.n_embd,
            n_head: cfg.n_head,
            n_layer: cfg.n_layer,
        };
        let model = GptModel { cfg, layers };
        proof {
            assert(model@.layers =~= all.map_values(
                |l: (Seq<char>, LayerKind)| layer_value(params@, l),
            ));
            assert forall|j: int| 0 <= j < all.len() implies layer_flaw(params@, #[trigger] all[j]) is None by {
                assert(layer_fits(layers@[j], all[j].1));
            }
        }
        Ok(model)
    }
}

/// The bit pattern of one hundred-thousandth in double precision: what is added to the
/// variance in every normalization.
pub const EPSILON: u64 = 0x3ee4_f8b5_88e3_68f1;

/// Causal mask: whether position `i` is kept from attending to position `j`.
pub open spec fn is_masked(i: int, j: int) -> bool {
    j > i
}

/// The mask for `t` positions: an upper-triangular matrix of negative infinity above the
/// diagonal, 0 elsewhere. Added to the attention scores before the softmax, so that a
/// position attends only to itself and the past.
pub open spec fn mask(t: usize) -> TensorValue {
    TensorValue {
        element: ElementType::F32,
        dims: seq![t, t],
        bits: Seq::new(
            (t * t) as nat,
            |i: int|
                if is_masked(i / t as int, i % t as int) {
                    NEGATIVE_INFINITY as u64
                } else {
                    0
                },
        ),
    }
}

/// The mask for `t` positions.
pub fn causal_mask(t: usize) -> (tensor: Result<Tensor, candle_core::Error>)
    requires
        t * t <= usize::MAX,
    ensures
        tensor matches Ok(m) && value(m) == mask(t),
{
    let mut bits: Vec<u32> = Vec::new();
    while bits.len() < t * t
        invariant
            t * t <= usize::MAX,
            bits@.len() <= t * t,
            forall|i: int|
                0 <= i < bits@.len() ==> #[trigger] bits@[i] == (if is_masked(
                    i / t as int,
                    i % t as int,
                ) {
                    NEGATIVE_INFINITY
                } else {
                    0
                }),
        decreases t * t - bits@.len(),
    {
        let i = bits.len();
        assert(t > 0) by (nonlinear_arith)
            requires
                0 <= i < t * t,
        ;
        if i % t > i / t {
            bits.push(NEGATIVE_INFINITY);
        } else {
            bits.push(0);
        }
    }
    let tensor = single_matrix(bits, t, t)?;
    assert(value(tensor).bits =~= mask(t).bits);
    Ok(tensor)
}

/// Row `i` of the mask leaves alone the columns up to `i` and shuts out those behind it.
pub proof fn law_mask_is_causal(t: usize, i: int, j: int)
    requires
        0 <= i < t,
        0 <= j < t,
    ensures
        0 <= i * t + j < mask(t).bits.len(),
        mask(t).bits[i * t + j] == (if j > i {
            NEGATIVE_INFINITY as u64
        } else {
            0
        }),
{
    assert(0 <= i * t + j < t * t) by (nonlinear_arith)
        requires
            0 <= i < t,
            0 <= j < t,
    ;
    lemma_fundamental_div_mod_converse(i * t + j, t as int, i, j);
}

/// The values in between on the way through an attention layer.
pub struct AttentionSteps {
    pub qkv: TensorValue,
    pub scores: TensorValue,
    pub masked: TensorValue,
    pub weights: TensorValue,
    pub mixed: TensorValue,
}

/// The values in between on the way through a block.
pub struct BlockSteps {
    pub normed: TensorValue,
    pub attention: AttentionSteps,
    pub attended: TensorValue,
    pub normed_again: TensorValue,
    pub wide: TensorValue,
    pub active: TensorValue,
    pub narrow: TensorValue,
}

/// The values in between on the way through the model: what each block takes in and the last
/// one gives, the steps within the blocks, and what the output layer takes in.
pub struct Pass {
    pub xs: Seq<TensorValue>,
    pub blocks: Seq<BlockSteps>,
    pub normed: TensorValue,
}

impl Network {
    /// The parameters have the dimensions of their layers.
    pub open spec fn is_valid(self) -> bool {
        &&& self.cfg.n_embd > 0
        &&& self.cfg.n_layer > 0 ==> self.cfg.n_head > 0
        &&& 4 * self.cfg.n_embd <= usize::MAX
        &&& self.layers.len() == self.cfg.all_layers().len()
        &&& forall|j: int|
            0 <= j < self.layers.len() ==> (#[trigger] self.layers[j]).weight.dims == weight_dims(
                self.cfg.all_layers()[j].1,
            ) && self.layers[j].weight.element == ElementType::F32
    }

    /// The width of one attention head.
    pub open spec fn head_dim(self) -> usize {
        (self.cfg.n_embd as int / self.cfg.n_head as int) as usize
    }

    /// Whether the heads take up the embedding exactly.
    pub open spec fn heads_tile(self) -> bool {
        self.cfg.n_head * self.head_dim() == self.cfg.n_embd
    }

    /// The place of layer `k` of block `i` among all layers.
    pub open spec fn in_block(self, i: int, k: int) -> int {
        2 + 6 * i + k
    }

    /// Whether layer `j`, a linear one, may turn `x` into `y`.
    pub open spec fn linear_at(self, j: int, x: TensorValue, y: TensorValue) -> bool {
        linear_gives(self.layers[j].weight, self.layers[j].bias->Some_0, x, y)
    }

    /// Whether layer `j`, a normalization, may turn `x` into `y`.
    pub open spec fn normalization_at(self, j: int, x: TensorValue, y: TensorValue) -> bool {
        normalization_gives(
            self.layers[j].weight,
            self.layers[j].bias->Some_0,
            number(ElementType::F64, EPSILON),
            x,
            y,
        )
    }

    /// The query (0), key (1) or value (2) of each head, out of the fused projection of
    /// `b` sequences of `t` positions: dimensions (b, n_head, t, head_dim).
    pub open spec fn heads(self, qkv: TensorValue, part: int) -> TensorValue {
        let c = self.cfg.n_embd;
        swapped(
            reshaped(
                columns(qkv, qkv_start(part, c as int), c),
                seq![qkv.dims[0], qkv.dims[1], self.cfg.n_head, self.head_dim()],
            ),
            1,
            2,
        )
    }

    /// Whether attention, with its fused projection in layer `j` and the projection after
    /// it in the next, may go from `x` to `y` by `steps`: scaled products of queries and
    /// keys, masked, make up the weights in which the values are mixed.
    pub open spec fn attends(
        self,
        j: int,
        x: TensorValue,
        y: TensorValue,
        steps: AttentionSteps,
    ) -> bool {
        let scores = scaled(steps.scores, inverse_root_bits(self.head_dim()));
        &&& self.linear_at(j, x, steps.qkv)
        &&& product_gives(
            self.heads(steps.qkv, 0),
            swapped(self.heads(steps.qkv, 1), 2, 3),
            steps.scores,
        )
        &&& addition_gives(scores, mask(x.dims[1]), steps.masked)
        &&& softmax_gives(steps.masked, steps.weights)
        &&& product_gives(steps.weights, self.heads(steps.qkv, 2), steps.mixed)
        &&& self.linear_at(j + 1, reshaped(swapped(steps.mixed, 1, 2), x.dims), y)
    }

    /// Whether attention may turn `x` into `y`.
    pub open spec fn attention_gives(self, j: int, x: TensorValue, y: TensorValue) -> bool {
        exists|steps: AttentionSteps| self.attends(j, x, y, steps)
    }

    /// Whether block `i` may go from `x` to `y` by `steps`: attention on the normalized
    /// input, added to the input, and a feed-forward network on the normalized sum, added
    /// to that sum.
    pub open spec fn passes(
        self,
        i: int,
        x: TensorValue,
        y: TensorValue,
        steps: BlockSteps,
    ) -> bool {
        let between = sum(x, steps.attended);
        &&& self.normalization_at(self.in_block(i, 0), x, steps.normed)
        &&& self.attends(self.in_block(i, 1), steps.normed, steps.attended, steps.attention)
        &&& self.normalization_at(self.in_block(i, 3), between, steps.normed_again)
        &&& self.linear_at(self.in_block(i, 4), steps.normed_again, steps.wide)
        &&& gelu_gives(steps.wide, steps.active)
        &&& self.linear_at(self.in_block(i, 5), steps.active, steps.narrow)
        &&& y == sum(between, steps.narrow)
    }

    /// Whether block `i` may turn `x` into `y`.
    pub open spec fn block_gives(self, i: int, x: TensorValue, y: TensorValue) -> bool {
        exists|steps: BlockSteps| self.passes(i, x, y, steps)
    }

    /// What the first block takes in: for each token the row of its id, plus the row of its
    /// position.
    pub open spec fn embedded(self, ids: TensorValue) -> TensorValue {
        let positions = TensorValue {
            element: ElementType::U32,
            dims: seq![ids.dims[1]],
            bits: Seq::new(ids.dims[1] as nat, |i: int| i as u64),
        };
        added_to_each(
            looked_up(self.layers[0].weight, ids),
            looked_up(self.layers[1].weight, positions),
        )
    }

    /// Whether the first blocks may have turned the embedded `ids` into the last of `xs`, by
    /// way of the others and of `blocks`.
    pub open spec fn flows(
        self,
        ids: TensorValue,
        xs: Seq<TensorValue>,
        blocks: Seq<BlockSteps>,
    ) -> bool {
        &&& xs.len() == blocks.len() + 1
        &&& xs[0] == self.embedded(ids)
        &&& forall|i: int| 0 <= i < blocks.len() ==> #[trigger] self.flows_through(xs, blocks, i)
    }

    /// Whether block `i` may turn value `i` into the one after it.
    pub open spec fn flows_through(
        self,
        xs: Seq<TensorValue>,
        blocks: Seq<BlockSteps>,
        i: int,
    ) -> bool {
        self.passes(i, xs[i], xs[i + 1], blocks[i])
    }

    /// Whether the model may go from `ids` to `logits` by `pass`: through the embeddings, each
    /// block in turn, a last normalization and the output layer.
    pub open spec fn goes_through(
        self,
        ids: TensorValue,
        pass: Pass,
        logits: TensorValue,
    ) -> bool {
        let n = self.cfg.n_layer as int;
        &&& pass.blocks.len() == n
        &&& self.flows(ids, pass.xs, pass.blocks)
        &&& self.normalization_at(self.in_block(n, 0), pass.xs.last(), pass.normed)
        &&& self.linear_at(self.in_block(n, 1), pass.normed, logits)
    }

    /// Whether the model may give `logits` for `ids`.
    pub open spec fn logits_may_be(self, ids: TensorValue, logits: TensorValue) -> bool {
        exists|pass: Pass| self.goes_through(ids, pass, logits)
    }

    /// Whether the sizes of all that is computed for `b` sequences of `t` tokens can be
    /// counted.
    pub open spec fn holds(self, b: int, t: int) -> bool {
        &&& t <= u32::MAX
        &&& b * t * (4 * self.cfg.n_embd) <= usize::MAX
        &&& b * t * self.cfg.vocab_size <= usize::MAX
        &&& b * self.cfg.n_head * t * t <= usize::MAX
    }
}

/// Dimensions of a batch of sequences: two, neither of them zero.
pub open spec fn is_batch_shape(dims: Seq<usize>) -> bool {
    dims.len() == 2 && dims[0] > 0 && dims[1] > 0
}

/// Whether the mean cross-entropy of `logits` against `targets`, each taken as one long list
/// of positions, may come out as `loss`.
pub open spec fn flat_loss_may_be(
    logits: TensorValue,
    targets: TensorValue,
    loss: TensorValue,
) -> bool {
    let rows = (logits.dims[0] * logits.dims[1]) as usize;
    cross_entropy_gives(
        reshaped(logits, seq![rows, logits.dims[2]]),
        reshaped(targets, seq![rows]),
        loss,
    )
}

impl Network {
    /// Whether the mean cross-entropy of the logits for `ids` against `targets` may come out
    /// as `loss`.
    pub open spec fn loss_may_be(
        self,
        ids: TensorValue,
        targets: TensorValue,
        loss: TensorValue,
    ) -> bool {
        exists|logits: TensorValue|
            #[trigger] self.logits_may_be(ids, logits) && flat_loss_may_be(logits, targets, loss)
    }

    /// Whether the model owes logits for `ids`, a matrix of dimensions (b, t): every id has
    /// a row, and the heads take up the embedding.
    pub open spec fn is_defined_on(self, ids: TensorValue) -> bool {
        &&& self.rows_for(ids)
        &&& self.cfg.n_layer > 0 ==> self.heads_tile()
    }

    /// Every id has a row in the table of token embeddings.
    pub open spec fn rows_for(self, ids: TensorValue) -> bool {
        all_have_rows(ids, self.cfg.vocab_size as int)
    }
}

/// The volume of a list of dimensions, multiplied out.
proof fn lemma_volume(a: usize, b: usize, c: usize, d: usize)
    ensures
        volume(seq![a]) == a,
        volume(seq![a, b]) == a * b,
        volume(seq![a, b, c]) == a * b * c,
        volume(seq![a, b, c, d]) == a * b * c * d,
{
    let none = Seq::<usize>::empty();
    assert(seq![a].drop_last() =~= none);
    assert(seq![a, b].drop_last() =~= seq![a]);
    assert(seq![a, b, c].drop_last() =~= seq![a, b]);
    assert(seq![a, b, c, d].drop_last() =~= seq![a, b, c]);
    assert(volume(none) == 1);
    assert(volume(seq![a]) == volume(none) * a);
    assert(volume(seq![a, b]) == volume(seq![a]) * b);
    assert(volume(seq![a, b, c]) == volume(seq![a, b]) * c);
    assert(volume(seq![a, b, c, d]) == volume(seq![a, b, c]) * d);
}

/// Layer `k` of block `i` stands behind the embeddings and the blocks before.
pub proof fn lemma_layers_below(cfg: Config, blocks: nat, i: nat, k: int)
    requires
        i < blocks,
        0 <= k < 6,
    ensures
        cfg.layers_below(blocks).len() == 2 + 6 * blocks,
        cfg.layers_below(blocks)[2 + 6 * i + k] == cfg.block_layers(i)[k],
    decreases blocks,
{
    let last = (blocks - 1) as nat;
    if i < last {
        lemma_layers_below(cfg, last, i, k);
    } else {
        lemma_layers_count(cfg, last);
    }
}

/// The number of layers below a block, the first two of which are the embeddings.
pub proof fn lemma_layers_count(cfg: Config, blocks: nat)
    ensures
        cfg.layers_below(blocks).len() == 2 + 6 * blocks,
        cfg.layers_below(blocks)[0] == cfg.layers_below(0)[0],
        cfg.layers_below(blocks)[1] == cfg.layers_below(0)[1],
    decreases blocks,
{
    if blocks > 0 {
        lemma_layers_count(cfg, (blocks - 1) as nat);
    }
}

/// The widths between the layers of a block can be counted.
proof fn lemma_widths(model: GptModel, b: usize, t: usize)
    requires
        model.wf(),
        b > 0,
        t > 0,
        model@.holds(b as int, t as int),
    ensures
        b * t * model@.cfg.n_embd <= usize::MAX,
        t * model@.cfg.n_embd <= usize::MAX,
        b * t * (4 * model@.cfg.n_embd) as usize <= usize::MAX,
{
    let c = model@.cfg.n_embd as int;
    assert(b * t * c <= b * t * (4 * c)) by (nonlinear_arith)
        requires
            b > 0,
            t > 0,
            c > 0,
    ;
    assert(t * c <= b * t * c) by (nonlinear_arith)
        requires
            b > 0,
            t > 0,
            c > 0,
    ;
}

/// With heads that take up the embedding, all sizes on the way through attention can be
/// counted.
proof fn lemma_sizes(model: GptModel, b: usize, t: usize)
    requires
        model.wf(),
        model@.cfg.n_head > 0,
        model@.heads_tile(),
        b > 0,
        t > 0,
        model@.holds(b as int, t as int),
    ensures
        model@.head_dim() > 0,
        b * t * model@.cfg.n_head * model@.head_dim() == b * t * model@.cfg.n_embd,
        b * model@.cfg.n_head * t * model@.head_dim() == b * t * model@.cfg.n_embd,
        b * t * model@.cfg.n_embd <= usize::MAX,
        b * t * (3 * model@.cfg.n_embd) <= usize::MAX,
        t * t <= usize::MAX,
{
    let c = model@.cfg.n_embd as int;
    let h = model@.cfg.n_head as int;
    let d = model@.head_dim() as int;
    let n = b * t;
    assert(d > 0) by (nonlinear_arith)
        requires
            h * d == c,
            c > 0,
            h > 0,
            d >= 0,
    ;
    assert(n * h * d == n * c) by (nonlinear_arith)
        requires
            h * d == c,
    ;
    assert(b * h * t * d == b * t * h * d) by (nonlinear_arith);
    assert(n > 0) by (nonlinear_arith)
        requires
            n == b * t,
            b > 0,
            t > 0,
    ;
    assert(n * c <= n * (3 * c) <= n * (4 * c)) by (nonlinear_arith)
        requires
            n > 0,
            c > 0,
    ;
    assert(t * t <= b * h * t * t) by (nonlinear_arith)
        requires
            b > 0,
            h > 0,
    ;
}

/// The same outcome with candle's error as one of the model's.
pub(crate) fn lift<T>(outcome: Result<T, candle_core::Error>) -> (lifted: Result<T, ModelError>)
    ensures
        match outcome {
            Ok(v) => lifted == Ok::<T, ModelError>(v),
            Err(e) => lifted == Err::<T, ModelError>(ModelError::Tensor(e)),
        },
{
    match outcome {
        Ok(v) => Ok(v),
        Err(e) => Err(ModelError::Tensor(e)),
    }
}

impl GptModel {
    /// Layer `j`, a linear one, applied to `x`.
    fn linear_layer(&self, j: usize, x: &Tensor) -> (y: Result<Tensor, ModelError>)
        requires
            self.wf(),
            j < self@.layers.len(),
            self@.cfg.all_layers()[j as int].1 is Linear,
            tensor_dims(*x).len() == 3,
            tensor_contiguous(*x),
            all_positive(tensor_dims(*x)),
            is_single(
                *x,
                seq![
                    tensor_dims(*x)[0],
                    tensor_dims(*x)[1],
                    self@.cfg.all_layers()[j as int].1->inputs,
                ],
            ),
            tensor_dims(*x)[0] * tensor_dims(*x)[1] * self@.cfg.all_layers()[j as int].1->outputs
                <= usize::MAX,
        ensures
            y matches Ok(t) && is_single(
                t,
                seq![
                    tensor_dims(*x)[0],
                    tensor_dims(*x)[1],
                    self@.cfg.all_layers()[j as int].1->outputs,
                ],
            ) && self@.linear_at(j as int, numbers(*x), numbers(t)),
    {
        let layer = &self.layers[j];
        assert(layer_fits(self.layers@[j as int], self.cfg.all_layers()[j as int].1));
        assert(self@.layers[j as int] == layer.holds());
        proof {
            lemma_volume(
                tensor_dims(*x)[0],
                tensor_dims(*x)[1],
                self@.cfg.all_layers()[j as int].1->outputs,
                0,
            );
        }
        match &layer.bias {
            Some(bias) => {
                let y = lift(linear(&layer.weight, bias, x))?;
                assert(tensor_dims(y) =~= tensor_dims(*x).drop_last().push(tensor_dims(layer.weight)[0]));
                Ok(y)
            },
            None => Err(ModelError::Shape),
        }
    }

    /// Layer `j`, a normalization, applied to `x`.
    fn normalization_layer(&self, j: usize, x: &Tensor) -> (y: Result<Tensor, ModelError>)
        requires
            self.wf(),
            j < self@.layers.len(),
            self@.cfg.all_layers()[j as int].1 is LayerNorm,
            tensor_element(*x) == ElementType::F32,
            tensor_dims(*x).len() > 0,
            all_positive(tensor_dims(*x)),
            tensor_dims(*x).last() == self@.cfg.all_layers()[j as int].1->size,
        ensures
            y matches Ok(t) && is_single(t, tensor_dims(*x)) && tensor_contiguous(t) && self@.normalization_at(
                j as int,
                numbers(*x),
                numbers(t),
            ),
    {
        let layer = &self.layers[j];
        assert(layer_fits(self.layers@[j as int], self.cfg.all_layers()[j as int].1));
        assert(self@.layers[j as int] == layer.holds());
        match &layer.bias {
            Some(bias) => lift(normalize(&layer.weight, bias, EPSILON, x)),
            None => Err(ModelError::Shape),
        }
    }

    /// The query (0), key (1) or value (2) of each head, out of the fused projection.
    fn split(&self, qkv: &Tensor, part: usize, b: usize, t: usize) -> (heads: Result<
        Tensor,
        ModelError,
    >)
        requires
            self.wf(),
            self@.cfg.n_head > 0,
            self@.heads_tile(),
            part < 3,
            b > 0,
            t > 0,
            self@.holds(b as int, t as int),
            is_single(*qkv, seq![b, t, (3 * self@.cfg.n_embd) as usize]),
        ensures
            heads matches Ok(h) && numbers(h) == self@.heads(numbers(*qkv), part as int)
                && is_single(h, seq![b, self@.cfg.n_head, t, self@.head_dim()]) && tensor_stacked(h),
    {
        let c = self.cfg.n_embd;
        let h = self.cfg.n_head;
        let d = c / h;
        proof {
            assert(part * c + c <= 3 * c) by (nonlinear_arith)
                requires
                    part < 3,
            ;
            lemma_volume(b, t, h, d);
            lemma_volume(b, t, c, 0);
            lemma_sizes(*self, b, t);
        }
        let columns = lift(narrow_last(qkv, qkv_offset(part, c), c))?;
        assert(tensor_dims(columns) =~= seq![b, t, c]);
        let dims = [b, t, h, d];
        assert(dims@ =~= seq![b, t, h, d]);
        let shaped = lift(reshape(&columns, &dims))?;
        assert(numbers(shaped) =~= reshaped(numbers(columns), dims@));
        let turned = lift(transpose(&shaped, 1, 2))?;
        assert(tensor_dims(turned) =~= seq![b, h, t, d]);
        let heads = lift(contiguous(&turned))?;
        assert(value(heads) =~= value(turned));
        Ok(heads)
    }

    /// Causal multi-head self-attention, with its fused projection in layer `j` and the
    /// projection after it in the next.
    fn attention(&self, j: usize, x: &Tensor, b: usize, t: usize) -> (y: Result<Tensor, ModelError>)
        requires
            self.wf(),
            self@.cfg.n_head > 0,
            j + 1 < self@.layers.len(),
            self@.cfg.all_layers()[j as int].1 == (LayerKind::Linear {
                inputs: self@.cfg.n_embd,
                outputs: (3 * self@.cfg.n_embd) as usize,
            }),
            self@.cfg.all_layers()[j + 1].1 == (LayerKind::Linear {
                inputs: self@.cfg.n_embd,
                outputs: self@.cfg.n_embd,
            }),
            b > 0,
            t > 0,
            self@.holds(b as int, t as int),
            is_single(*x, seq![b, t, self@.cfg.n_embd]),
            tensor_contiguous(*x),
        ensures
            self@.heads_tile() ==> (y matches Ok(out) && is_single(
                out,
                seq![b, t, self@.cfg.n_embd],
            ) && self@.attention_gives(j as int, numbers(*x), numbers(out))),
            !self@.heads_tile() ==> y == Err::<Tensor, ModelError>(ModelError::Heads),
    {
        let c = self.cfg.n_embd;
        let h = self.cfg.n_head;
        let d = c / h;
        assert(j + 1 < self.layers.len());
        proof {
            lemma_fundamental_div_mod(c as int, h as int);
        }
        if h * d != c {
            return Err(ModelError::Heads);
        }
        proof {
            lemma_sizes(*self, b, t);
            lemma_volume(b, h, t, t);
            lemma_volume(b, h, t, d);
            lemma_volume(b, t, c, 0);
        }
        let qkv = self.linear_layer(j, x)?;
        let query = self.split(&qkv, 0, b, t)?;
        let key = self.split(&qkv, 1, b, t)?;
        let values = self.split(&qkv, 2, b, t)?;

        let turned_key = lift(transpose(&key, 2, 3))?;
        assert(tensor_dims(turned_key) =~= seq![b, h, d, t]);
        let scores = lift(product(&query, &turned_key))?;
        assert(tensor_dims(scores) =~= seq![b, h, t, t]);
        let scale = lift(inverse_root(d))?;
        let scaled_scores = lift(scale_tensor(&scores, scale))?;
        assert(numbers(scaled_scores) =~= scaled(numbers(scores), inverse_root_bits(d)));

        let mask_tensor = lift(causal_mask(t))?;
        assert(numbers(mask_tensor) =~= mask(t));
        assert(tensor_dims(mask_tensor).is_suffix_of(tensor_dims(scaled_scores)));
        let masked = lift(broadcast_add(&scaled_scores, &mask_tensor))?;
        let weights = lift(softmax(&masked))?;

        let mixed = lift(product(&weights, &values))?;
        assert(tensor_dims(mixed) =~= seq![b, h, t, d]);
        let turned = lift(transpose(&mixed, 1, 2))?;
        assert(tensor_dims(turned) =~= seq![b, t, h, d]);
        let merged = lift(contiguous(&turned))?;
        assert(value(merged) =~= value(turned));
        let dims = [b, t, c];
        assert(dims@ =~= seq![b, t, c]);
        proof {
            lemma_volume(b, t, h, d);
        }
        let joined = lift(reshape(&merged, &dims))?;
        assert(numbers(joined) =~= reshaped(numbers(merged), dims@));
        let y = self.linear_layer(j + 1, &joined)?;
        proof {
            let steps = AttentionSteps {
                qkv: numbers(qkv),
                scores: numbers(scores),
                masked: numbers(masked),
                weights: numbers(weights),
                mixed: numbers(mixed),
            };
            assert(self@.attends(j as int, numbers(*x), numbers(y), steps));
        }
        Ok(y)
    }

    /// One pre-norm block: residual attention, then a residual feed-forward network.
    fn block(&self, i: usize, x: &Tensor, b: usize, t: usize) -> (y: Result<Tensor, ModelError>)
        requires
            self.wf(),
            i < self@.cfg.n_layer,
            b > 0,
            t > 0,
            self@.holds(b as int, t as int),
            is_single(*x, seq![b, t, self@.cfg.n_embd]),
        ensures
            self@.heads_tile() ==> (y matches Ok(out) && is_single(
                out,
                seq![b, t, self@.cfg.n_embd],
            ) && self@.block_gives(i as int, numbers(*x), numbers(out))),
            !self@.heads_tile() ==> y == Err::<Tensor, ModelError>(ModelError::Heads),
    {
        let ghost cfg = self.cfg;
        let ghost all = cfg.all_layers();
        proof {
            let n = cfg.n_layer as nat;
            lemma_layers_below(cfg, n, i as nat, 0);
            lemma_layers_below(cfg, n, i as nat, 1);
            lemma_layers_below(cfg, n, i as nat, 2);
            lemma_layers_below(cfg, n, i as nat, 3);
            lemma_layers_below(cfg, n, i as nat, 4);
            lemma_layers_below(cfg, n, i as nat, 5);
            assert(self@.in_block(i as int, 5) < self.layers.len());
            lemma_widths(*self, b, t);
        }
        let j = 2 + 6 * i;
        let normed = self.normalization_layer(j, x)?;
        let attended = self.attention(j + 1, &normed, b, t)?;
        let between = lift(add_tensors(x, &attended))?;
        assert(numbers(between) =~= sum(numbers(*x), numbers(attended)));
        let normed_again = self.normalization_layer(j + 3, &between)?;
        let wide = self.linear_layer(j + 4, &normed_again)?;
        let active = lift(gelu(&wide))?;
        let narrow = self.linear_layer(j + 5, &active)?;
        let y = lift(add_tensors(&between, &narrow))?;
        assert(numbers(y) =~= sum(numbers(between), numbers(narrow)));
        proof {
            let steps = BlockSteps {
                normed: numbers(normed),
                attention: choose|steps: AttentionSteps|
                    self@.attends(
                        self@.in_block(i as int, 1),
                        numbers(normed),
                        numbers(attended),
                        steps,
                    ),
                attended: numbers(attended),
                normed_again: numbers(normed_again),
                wide: numbers(wide),
                active: numbers(active),
                narrow: numbers(narrow),
            };
            assert(self@.passes(i as int, numbers(*x), numbers(y), steps));
        }
        Ok(y)
    }

    /// `idx` is `(batch, seq_len)` of token ids; returns logits of shape
    /// `(batch, seq_len, vocab_size)`.
    pub fn forward(&self, idx: &Tensor) -> (logits: Result<Tensor, ModelError>)
        requires
            self.wf(),
            ids_fit(value(*idx)),
            tensor_dims(*idx).len() == 2 ==> tensor_dims(*idx)[1] <= self@.cfg.block_size
                && self@.holds(tensor_dims(*idx)[0] as int, tensor_dims(*idx)[1] as int),
        ensures
            logits == Err::<Tensor, ModelError>(ModelError::Shape) <==> !is_batch_shape(
                tensor_dims(*idx),
            ),
            logits matches Err(ModelError::Tensor(_)) <==> is_batch_shape(tensor_dims(*idx))
                && !self@.rows_for(value(*idx)),
            logits == Err::<Tensor, ModelError>(ModelError::Heads) <==> is_batch_shape(
                tensor_dims(*idx),
            ) && self@.rows_for(value(*idx)) && !self@.is_defined_on(value(*idx)),
            logits is Ok <==> is_batch_shape(tensor_dims(*idx)) && self@.is_defined_on(value(*idx)),
            logits matches Ok(y) ==> is_single(
                y,
                tensor_dims(*idx).push(self@.cfg.vocab_size),
            ) && self@.logits_may_be(value(*idx), numbers(y)),
    {
        let dims = dimensions(idx);
        if dims.len() != 2 || dims[0] == 0 || dims[1] == 0 {
            return Err(ModelError::Shape);
        }
        let b = dims[0];
        let t = dims[1];
        assert(tensor_dims(*idx) =~= seq![b, t]);
        let embedded = self.embedding(idx, b, t)?;
        let (x, steps) = self.all_blocks(&embedded, Ghost(value(*idx)), b, t)?;
        proof {
            let cfg = self.cfg;
            let all = cfg.all_layers();
            lemma_layers_count(cfg, cfg.n_layer as nat);
            assert(all[2 + 6 * cfg.n_layer] == (
                "ln_f"@,
                LayerKind::LayerNorm { size: cfg.n_embd },
            ));
            assert(all[3 + 6 * cfg.n_layer] == (
                "head"@,
                LayerKind::Linear { inputs: cfg.n_embd, outputs: cfg.vocab_size },
            ));
            assert(3 + 6 * cfg.n_layer < self.layers.len());
        }
        let last = 2 + 6 * self.cfg.n_layer;
        let normed = self.normalization_layer(last, &x)?;
        let logits = self.linear_layer(last + 1, &normed)?;
        assert(tensor_dims(logits) =~= tensor_dims(*idx).push(self.cfg.vocab_size));
        proof {
            let pass = Pass { xs: steps@.0, blocks: steps@.1, normed: numbers(normed) };
            assert(self@.goes_through(value(*idx), pass, numbers(logits)));
        }
        Ok(logits)
    }

    /// The embedded tokens: the row of each id plus the row of its position.
    fn embedding(&self, idx: &Tensor, b: usize, t: usize) -> (x: Result<Tensor, ModelError>)
        requires
            self.wf(),
            ids_fit(value(*idx)),
            tensor_dims(*idx) == seq![b, t],
            b > 0,
            0 < t <= self@.cfg.block_size,
            self@.holds(b as int, t as int),
        ensures
            x matches Err(e) ==> e is Tensor,
            x is Ok <==> self@.rows_for(value(*idx)),
            x matches Ok(out) ==> is_single(out, seq![b, t, self@.cfg.n_embd]) && numbers(out)
                == self@.embedded(value(*idx)),
    {
        let c = self.cfg.n_embd;
        proof {
            let cfg = self.cfg;
            let all = cfg.all_layers();
            lemma_layers_count(cfg, cfg.n_layer as nat);
            assert(layer_fits(self.layers@[0], all[0].1));
            assert(layer_fits(self.layers@[1], all[1].1));
            assert(self@.layers[0] == self.layers@[0].holds());
            assert(self@.layers[1] == self.layers@[1].holds());
            lemma_widths(*self, b, t);
            lemma_volume(b, t, c, 0);
            lemma_volume(t, c, 0, 0);
        }
        let tok = lift(embed(&self.layers[0].weight, self.cfg.vocab_size, c, idx))?;
        assert(tensor_dims(tok) =~= seq![b, t, c]);
        let ids = lift(ids_below(t as u32))?;
        proof {
            let positions = TensorValue {
                element: ElementType::U32,
                dims: seq![t],
                bits: Seq::new(t as nat, |i: int| i as u64),
            };
            assert(value(ids) =~= positions);
        }
        let pos = lift(embed(&self.layers[1].weight, self.cfg.block_size, c, &ids))?;
        assert(tensor_dims(pos) =~= seq![t, c]);
        assert(tensor_dims(pos).is_suffix_of(tensor_dims(tok)));
        lift(broadcast_add(&tok, &pos))
    }

    /// All blocks in turn, applied to the embedded `ids`.
    fn all_blocks(
        &self,
        embedded: &Tensor,
        ids: Ghost<TensorValue>,
        b: usize,
        t: usize,
    ) -> (out: Result<(Tensor, Ghost<(Seq<TensorValue>, Seq<BlockSteps>)>), ModelError>)
        requires
            self.wf(),
            b > 0,
            t > 0,
            self@.holds(b as int, t as int),
            is_single(*embedded, seq![b, t, self@.cfg.n_embd]),
            numbers(*embedded) == self@.embedded(ids@),
        ensures
            self@.cfg.n_layer > 0 && !self@.heads_tile() ==> out matches Err(ModelError::Heads),
            self@.cfg.n_layer == 0 || self@.heads_tile() ==> (out matches Ok((x, steps)) && {
                &&& is_single(x, seq![b, t, self@.cfg.n_embd])
                &&& steps@.1.len() == self@.cfg.n_layer
                &&& steps@.0.last() == numbers(x)
                &&& self@.flows(ids@, steps@.0, steps@.1)
            }),
    {
        let mut x = share(embedded);
        assert(value(x) =~= value(*embedded));
        let ghost mut xs = seq![numbers(x)];
        let ghost mut blocks: Seq<BlockSteps> = Seq::empty();
        let mut i: usize = 0;
        while i < self.cfg.n_layer
            invariant
                self.wf(),
                b > 0,
                t > 0,
                self.cfg == self@.cfg,
                i <= self.cfg.n_layer,
                i > 0 ==> self@.heads_tile(),
                self@.holds(b as int, t as int),
                is_single(x, seq![b, t, self@.cfg.n_embd]),
                blocks.len() == i,
                xs.len() == i + 1,
                xs.last() == numbers(x),
                self@.flows(ids@, xs, blocks),
            decreases self.cfg.n_layer - i,
        {
            let y = self.block(i, &x, b, t)?;
            proof {
                let steps = choose|steps: BlockSteps|
                    self@.passes(i as int, numbers(x), numbers(y), steps);
                let longer = xs.push(numbers(y));
                let more = blocks.push(steps);
                assert forall|k: int| 0 <= k < more.len() implies #[trigger] self@.flows_through(
                    longer,
                    more,
                    k,
                ) by {
                    if k < blocks.len() {
                        assert(self@.flows_through(xs, blocks, k));
                    }
                }
                blocks = more;
                xs = longer;
            }
            x = y;
            i = i + 1;
        }
        Ok((x, Ghost((xs, blocks))))
    }
}

impl GptModel {
    /// Whether the sizes of all that is computed for `b` sequences of `t` tokens can be
    /// counted.
    pub fn has_room(&self, b: usize, t: usize) -> (room: bool)
        requires
            self.wf(),
        ensures
            room == self@.holds(b as int, t as int),
    {
        let wide = 4 * self.cfg.n_embd;
        let h = self.cfg.n_head;
        if t as u64 > u32::MAX as u64 {
            return false;
        }
        if t == 0 || b == 0 {
            assert(0 * t == 0 && b * 0 == 0) by (nonlinear_arith);
            assert(0 * wide == 0 && 0 * self.cfg.vocab_size == 0) by (nonlinear_arith);
            assert(0 * h == 0 && 0 * t == 0) by (nonlinear_arith);
            assert(b * h * 0 == 0) by (nonlinear_arith);
            return true;
        }
        let cells = match b.checked_mul(t) {
            Some(n) => n,
            None => {
                assert(b * t * wide >= b * t) by (nonlinear_arith)
                    requires
                        wide > 0,
                ;
                return false;
            },
        };
        if cells.checked_mul(wide).is_none() || cells.checked_mul(self.cfg.vocab_size).is_none() {
            return false;
        }
        let rows = match b.checked_mul(h) {
            Some(n) => n,
            None => {
                assert(b * h * t * t >= b * h) by (nonlinear_arith)
                    requires
                        t > 0,
                ;
                return false;
            },
        };
        match rows.checked_mul(t) {
            Some(n) => n.checked_mul(t).is_some(),
            None => {
                assert(b * h * t * t >= b * h * t) by (nonlinear_arith)
                    requires
                        t > 0,
                ;
                false
            },
        }
    }

    /// The mean cross-entropy of the logits for `inputs` against `targets`.
    pub fn loss(&self, inputs: &Tensor, targets: &Tensor) -> (loss: Result<Tensor, ModelError>)
        requires
            self.wf(),
            self@.cfg.vocab_size > 0,
            ids_fit(value(*inputs)),
            ids_fit(value(*targets)),
            tensor_dims(*targets) == tensor_dims(*inputs),
            tensor_dims(*inputs).len() == 2 ==> tensor_dims(*inputs)[1] <= self@.cfg.block_size
                && self@.holds(tensor_dims(*inputs)[0] as int, tensor_dims(*inputs)[1] as int),
        ensures
            loss == Err::<Tensor, ModelError>(ModelError::Shape) <==> !is_batch_shape(
                tensor_dims(*inputs),
            ),
            loss == Err::<Tensor, ModelError>(ModelError::Heads) <==> is_batch_shape(
                tensor_dims(*inputs),
            ) && self@.rows_for(value(*inputs)) && !self@.is_defined_on(value(*inputs)),
            loss is Ok <==> is_batch_shape(tensor_dims(*inputs)) && self@.is_defined_on(
                value(*inputs),
            ) && self@.rows_for(value(*targets)),
            loss matches Err(e) ==> e is Shape || e is Heads || e is Tensor,
            loss matches Ok(l) ==> is_scalar(l, ElementType::F32) && self@.loss_may_be(
                value(*inputs),
                value(*targets),
                numbers(l),
            ),
    {
        let logits = self.forward(inputs)?;
        proof {
            let b = tensor_dims(*inputs)[0];
            let t = tensor_dims(*inputs)[1];
            assert(tensor_dims(*inputs) =~= seq![b, t]);
            assert(tensor_dims(logits) =~= seq![b, t, self@.cfg.vocab_size]);
            assert(tensor_dims(logits).drop_last() =~= seq![b, t]);
        }
        let loss = lift(mean_loss(&logits, targets))?;
        assert(self@.logits_may_be(value(*inputs), numbers(logits)));
        Ok(loss)
    }
}

/// The mean cross-entropy of `logits`, of dimensions `(batch, seq_len, vocab_size)`, against
/// `targets`, over all positions of all sequences.
pub fn mean_loss(logits: &Tensor, targets: &Tensor) -> (loss: Result<Tensor, candle_core::Error>)
    requires
        tensor_element(*logits) == ElementType::F32,
        tensor_dims(*logits).len() == 3,
        all_positive(tensor_dims(*logits)),
        tensor_dims(*logits)[0] * tensor_dims(*logits)[1] * tensor_dims(*logits)[2] <= usize::MAX,
        ids_fit(value(*targets)),
        tensor_dims(*targets) == tensor_dims(*logits).drop_last(),
    ensures
        loss is Ok <==> all_have_rows(value(*targets), tensor_dims(*logits)[2] as int),
        loss matches Ok(l) ==> is_scalar(l, ElementType::F32) && flat_loss_may_be(
            numbers(*logits),
            value(*targets),
            numbers(l),
        ),
{
    let dims = dimensions(logits);
    let b = dims[0];
    let t = dims[1];
    let v = dims[2];
    assert(tensor_dims(*logits) =~= seq![b, t, v]);
    assert(tensor_dims(*targets) =~= seq![b, t]);
    proof {
        lemma_volume(b, t, v, 0);
        assert(0 < b * t <= b * t * v) by (nonlinear_arith)
            requires
                b > 0,
                t > 0,
                v > 0,
        ;
        lemma_volume((b * t) as usize, v, 0, 0);
    }
    let flat = [b * t, v];
    let rows = [b * t];
    assert(flat@ =~= seq![(b * t) as usize, v]);
    assert(rows@ =~= seq![(b * t) as usize]);
    let flat_logits = reshape(logits, &flat)?;
    let flat_targets = reshape(targets, &rows)?;
    assert(numbers(flat_logits) =~= reshaped(numbers(*logits), flat@));
    assert(tensor_dims(flat_logits)[1] == v);
    assert(value(flat_targets).bits == value(*targets).bits);
    assert(all_have_rows(value(flat_targets), v as int) <==> all_have_rows(
        value(*targets),
        v as int,
    ));
    cross_entropy(&flat_logits, &flat_targets)
}

/// A model's parameters have the dimensions of their layers.
pub proof fn law_models_are_valid(model: GptModel)
    requires
        model.wf(),
    ensures
        model@.is_valid(),
{
    assert forall|j: int| 0 <= j < model@.layers.len() implies (
    #[trigger] model@.layers[j]).weight.dims == weight_dims(model@.cfg.all_layers()[j].1)
        && model@.layers[j].weight.element == ElementType::F32 by {
        assert(layer_fits(model.layers@[j], model.cfg.all_layers()[j].1));
    }
}

/// The place of an element in row-major order, and back, in four dimensions.
pub proof fn lemma_place(dims: Seq<usize>, at: Seq<int>)
    requires
        dims.len() == 4,
        at.len() == 4,
        forall|k: int| 0 <= k < 4 ==> 0 <= #[trigger] at[k] < dims[k],
    ensures
        offset(dims, at) == ((at[0] * dims[1] + at[1]) * dims[2] + at[2]) * dims[3] + at[3],
        coordinates(dims, offset(dims, at)) == at,
        0 <= offset(dims, at) < dims[0] * dims[1] * dims[2] * dims[3],
{
    let (a, b, c, d) = (at[0], at[1], at[2], at[3]);
    let (da, db, dc, dd) = (dims[0] as int, dims[1] as int, dims[2] as int, dims[3] as int);
    let two = a * db + b;
    let three = two * dc + c;
    let four = three * dd + d;
    assert(0 <= two < da * db) by (nonlinear_arith)
        requires
            two == a * db + b,
            0 <= a < da,
            0 <= b < db,
    ;
    assert(0 <= three < da * db * dc) by (nonlinear_arith)
        requires
            three == two * dc + c,
            0 <= two < da * db,
            0 <= c < dc,
    ;
    assert(0 <= four < da * db * dc * dd) by (nonlinear_arith)
        requires
            four == three * dd + d,
            0 <= three < da * db * dc,
            0 <= d < dd,
    ;
    lemma_fundamental_div_mod_converse(four, dd, three, d);
    lemma_fundamental_div_mod_converse(three, dc, two, c);
    lemma_fundamental_div_mod_converse(two, db, a, b);
    lemma_fundamental_div_mod_converse(a, da, 0, a);
    reveal_with_fuel(offset, 5);
    reveal_with_fuel(coordinates, 5);
    let one_dim = dims.drop_last().drop_last().drop_last();
    assert(one_dim.drop_last().len() == 0);
    assert(0 * da == 0) by (nonlinear_arith);
    assert(coordinates(dims, four) =~= at);
}

/// Heads are slices of the fused projection: in the query, key or value (`part` 0, 1 or 2),
/// head `h` of position `p` in sequence `s` holds the numbers of that position that lie
/// behind the parts before it and the heads before it.
pub proof fn law_heads_are_slices(
    net: Network,
    qkv: TensorValue,
    part: int,
    s: int,
    h: int,
    p: int,
    i: int,
)
    requires
        net.cfg.n_head > 0,
        net.cfg.n_embd > 0,
        3 * net.cfg.n_embd <= usize::MAX,
        net.heads_tile(),
        qkv.dims.len() == 3,
        qkv.dims[2] == 3 * net.cfg.n_embd,
        qkv.bits.len() == qkv.dims[0] * qkv.dims[1] * qkv.dims[2],
        0 <= part < 3,
        0 <= s < qkv.dims[0],
        0 <= p < qkv.dims[1],
        0 <= h < net.cfg.n_head,
        0 <= i < net.head_dim(),
    ensures
        net.heads(qkv, part).dims == seq![
            qkv.dims[0],
            net.cfg.n_head,
            qkv.dims[1],
            net.head_dim(),
        ],
        net.heads(qkv, part).bits[offset(net.heads(qkv, part).dims, seq![s, h, p, i])]
            == qkv.bits[(s * qkv.dims[1] + p) * qkv.dims[2] + qkv_start(
            part,
            net.cfg.n_embd as int,
        ) + h * net.head_dim() + i],
{
    let c = net.cfg.n_embd as int;
    let d = net.head_dim() as int;
    let heads = net.cfg.n_head as int;
    let b = qkv.dims[0] as int;
    let t = qkv.dims[1] as int;
    let cut = columns(qkv, qkv_start(part, c), net.cfg.n_embd);
    let shaped = reshaped(cut, seq![qkv.dims[0], qkv.dims[1], net.cfg.n_head, net.head_dim()]);
    let turned = swapped(shaped, 1, 2);
    assert(turned.dims =~= seq![qkv.dims[0], net.cfg.n_head, qkv.dims[1], net.head_dim()]);
    let at = seq![s, h, p, i];
    let back = seq![s, p, h, i];
    lemma_place(turned.dims, at);
    lemma_place(shaped.dims, back);
    assert(exchanged(at, 1, 2) =~= back);
    let row = s * t + p;
    let column = h * d + i;
    let j = offset(shaped.dims, back);
    assert(0 <= column < c) by (nonlinear_arith)
        requires
            column == h * d + i,
            heads * d == c,
            0 <= h < heads,
            0 <= i < d,
    ;
    assert(j == row * c + column) by (nonlinear_arith)
        requires
            j == (row * heads + h) * d + i,
            column == h * d + i,
            heads * d == c,
    ;
    assert(0 <= row < b * t) by (nonlinear_arith)
        requires
            row == s * t + p,
            0 <= s < b,
            0 <= p < t,
    ;
    lemma_fundamental_div_mod_converse(j, c, row, column);
    lemma_fundamental_div_mod_converse(qkv.bits.len() as int, 3 * c, b * t, 0);
    assert(b * t * heads * d == b * t * c) by (nonlinear_arith)
        requires
            heads * d == c,
    ;
    assert(b * heads * t * d == b * t * heads * d) by (nonlinear_arith);
    assert(cut.bits.len() == b * t * c);
    assert(cut.bits[j] == qkv.bits[row * (3 * c) + qkv_start(part, c) + column]);
}

} // verus!
