//! The model taken apart: which numbers of its parameters and of the values on the way go
//! into which others, layer by layer and number by number.
use crate::causality::{
    is_attending, is_projection, lemma_attention_shapes, lemma_head_dim, lemma_head_row,
    lemma_key_column, lemma_mixed_row,
};
use crate::layers::{
    cell, column, cross_entropy_gives, dot_gives, gelu_number_gives, has_row, is_full,
    linear_row_gives, no_row, normalization_row_gives, product_cell_gives, reshaped, row,
    softmax_of_row_gives, softmax_row_gives, swapped, volume,
};
use crate::model::{law_heads_tile_the_embedding, Config, LayerKind};
use crate::tensor::{
    count_bits, number, number_reciprocal, number_root, number_scaled, number_sum, sum,
    ElementType, TensorValue,
};
use crate::text::decimal;
use crate::transformer::{
    flat_loss_may_be, is_batch_shape, law_mask_is_causal, layer_flaw, layer_value,
    lemma_layers_below, lemma_layers_count, mask, AttentionSteps, BlockSteps, Flaw, ModelError,
    Network, Pass, EPSILON,
};
use vstd::arithmetic::div_mod::{lemma_fundamental_div_mod, lemma_fundamental_div_mod_converse};
use vstd::prelude::*;

verus! {

/// Where each layer stands and what it is: the embeddings of tokens and positions, six layers
/// for each block, and the last normalization and the output layer.
pub proof fn law_layers_in_their_places(cfg: Config, i: nat)
    requires
        i < cfg.n_layer,
        4 * cfg.n_embd <= usize::MAX,
    ensures
        ({
            let n = cfg.n_embd;
            let all = cfg.all_layers();
            let block = "block_"@ + decimal(i);
            let at = (2 + 6 * i) as int;
            let end = 2 + 6 * cfg.n_layer;
            &&& all.len() == end + 2
            &&& all[0] == ("tok_emb"@, LayerKind::Embedding { rows: cfg.vocab_size, dim: n })
            &&& all[1] == ("pos_emb"@, LayerKind::Embedding { rows: cfg.block_size, dim: n })
            &&& all[at] == (block + ".ln1"@, LayerKind::LayerNorm { size: n })
            &&& all[at + 1] == (
                block + ".attn.qkv"@,
                LayerKind::Linear { inputs: n, outputs: (n + n + n) as usize },
            )
            &&& all[at + 2] == (
                block + ".attn.proj"@,
                LayerKind::Linear { inputs: n, outputs: n },
            )
            &&& all[at + 3] == (block + ".ln2"@, LayerKind::LayerNorm { size: n })
            &&& all[at + 4] == (
                block + ".mlp.fc"@,
                LayerKind::Linear { inputs: n, outputs: (n + n + n + n) as usize },
            )
            &&& all[at + 5] == (
                block + ".mlp.proj"@,
                LayerKind::Linear { inputs: (n + n + n + n) as usize, outputs: n },
            )
            &&& all[end as int] == ("ln_f"@, LayerKind::LayerNorm { size: n })
            &&& all[end + 1] == ("head"@, LayerKind::Linear { inputs: n, outputs: cfg.vocab_size })
        }),
{
    let n = cfg.n_layer as nat;
    lemma_layers_count(cfg, n);
    lemma_layers_below(cfg, n, i, 0);
    lemma_layers_below(cfg, n, i, 1);
    lemma_layers_below(cfg, n, i, 2);
    lemma_layers_below(cfg, n, i, 3);
    lemma_layers_below(cfg, n, i, 4);
    lemma_layers_below(cfg, n, i, 5);
}

/// The layers of a model without blocks, or the ones around the blocks of any other.
pub proof fn law_layers_around_the_blocks(cfg: Config)
    ensures
        ({
            let all = cfg.all_layers();
            let end = 2 + 6 * cfg.n_layer;
            &&& all.len() == end + 2
            &&& all[0] == (
                "tok_emb"@,
                LayerKind::Embedding { rows: cfg.vocab_size, dim: cfg.n_embd },
            )
            &&& all[1] == (
                "pos_emb"@,
                LayerKind::Embedding { rows: cfg.block_size, dim: cfg.n_embd },
            )
            &&& all[end as int] == ("ln_f"@, LayerKind::LayerNorm { size: cfg.n_embd })
            &&& all[end + 1] == (
                "head"@,
                LayerKind::Linear { inputs: cfg.n_embd, outputs: cfg.vocab_size },
            )
        }),
{
    lemma_layers_count(cfg, cfg.n_layer as nat);
}

/// A layer's parameters are kept under its path: the weight, with a row for each entry of a
/// table or each output, and the bias of every layer but an embedding, with a number for each
/// output. They fit the layer just when they are there, in single precision, with these
/// dimensions.
pub proof fn law_parameters_of_a_layer(
    params: Map<Seq<char>, TensorValue>,
    path: Seq<char>,
    kind: LayerKind,
)
    ensures
        ({
            let weight = path + ".weight"@;
            let bias = path + ".bias"@;
            let held = layer_value(params, (path, kind));
            let fits = |name: Seq<char>, dims: Seq<usize>|
                params.contains_key(name) && params[name].element == ElementType::F32
                    && params[name].dims == dims;
            &&& held.weight == params[weight].numeric()
            &&& match kind {
                LayerKind::Embedding { rows, dim } => {
                    &&& held.bias is None
                    &&& layer_flaw(params, (path, kind)) is None <==> fits(weight, seq![rows, dim])
                },
                LayerKind::Linear { inputs, outputs } => {
                    &&& held.bias == Some(params[bias].numeric())
                    &&& layer_flaw(params, (path, kind)) is None <==> fits(
                        weight,
                        seq![outputs, inputs],
                    ) && fits(bias, seq![outputs])
                },
                LayerKind::LayerNorm { size } => {
                    &&& held.bias == Some(params[bias].numeric())
                    &&& layer_flaw(params, (path, kind)) is None <==> fits(weight, seq![size])
                        && fits(bias, seq![size])
                },
            }
        }),
{
}

/// The first block takes in, for each token, the row of its id plus the row of its position,
/// number by number. An id that stands for no row counts as zeros.
pub proof fn law_embedding_number_by_number(net: Network, ids: TensorValue, r: int, q: int, e: int)
    requires
        net.is_valid(),
        is_batch_shape(ids.dims),
        is_full(ids),
        0 <= r < ids.dims[0],
        0 <= q < ids.dims[1],
        q < u32::MAX,
        0 <= e < net.cfg.n_embd,
    ensures
        ({
            let c = net.cfg.n_embd as int;
            let t = ids.dims[1] as int;
            let id = ids.bits[r * t + q];
            let token = if id == no_row(ids.element) {
                0u64
            } else {
                net.layers[0].weight.bits[id * c + e]
            };
            let position = net.layers[1].weight.bits[q * c + e];
            &&& net.embedded(ids).dims == seq![ids.dims[0], ids.dims[1], net.cfg.n_embd]
            &&& is_full(net.embedded(ids))
            &&& net.embedded(ids).bits[(r * t + q) * c + e] == number_sum(
                ElementType::F32,
                token,
                position,
            )
        }),
{
    let cfg = net.cfg;
    let c = cfg.n_embd as int;
    let b = ids.dims[0] as int;
    let t = ids.dims[1] as int;
    let index = r * t + q;
    let x = net.embedded(ids);
    law_layers_around_the_blocks(cfg);
    assert(net.layers[0].weight.dims == seq![cfg.vocab_size, cfg.n_embd]);
    assert(net.layers[1].weight.dims == seq![cfg.block_size, cfg.n_embd]);
    lemma_volume_of(ids.dims);
    assert(x.dims =~= seq![ids.dims[0], ids.dims[1], cfg.n_embd]);
    lemma_volume_of(x.dims);
    lemma_index(r, b, q, t);
    assert(0 <= b * t * c && 0 <= t * c) by (nonlinear_arith)
        requires
            0 <= b,
            0 <= t,
            0 <= c,
    ;
    let place = index * c + e;
    lemma_index(index, b * t, e, c);
    lemma_index(q, t, e, c);
    assert(place == r * (t * c) + (q * c + e)) by (nonlinear_arith)
        requires
            place == index * c + e,
            index == r * t + q,
    ;
    lemma_fundamental_div_mod_converse(place, c, index, e);
    lemma_fundamental_div_mod_converse(place, t * c, r, q * c + e);
    lemma_fundamental_div_mod_converse(q * c + e, c, q, e);
}

/// The place of column `k` in row `r` lies within a matrix.
proof fn lemma_index(r: int, rows: int, k: int, width: int)
    requires
        0 <= r < rows,
        0 <= k < width,
    ensures
        0 <= r * width + k < rows * width,
{
    assert(0 <= r * width + k < rows * width) by (nonlinear_arith)
        requires
            0 <= r < rows,
            0 <= k < width,
    ;
}

/// The volume of a list of dimensions, multiplied out.
proof fn lemma_volume_of(dims: Seq<usize>)
    ensures
        dims.len() == 2 ==> volume(dims) == dims[0] * dims[1],
        dims.len() == 3 ==> volume(dims) == dims[0] * dims[1] * dims[2],
        dims.len() == 4 ==> volume(dims) == dims[0] * dims[1] * dims[2] * dims[3],
{
    reveal_with_fuel(volume, 5);
    if dims.len() > 0 {
        assert(1 * dims[0] == dims[0]) by (nonlinear_arith);
    }
}

/// The fused projection of position `k` of sequence `r`: the `d` numbers of its query (0), key
/// (1) or value (2) that belong to head `h`.
pub open spec fn projected(
    net: Network,
    qkv: TensorValue,
    r: int,
    k: int,
    part: int,
    h: int,
) -> Seq<u64> {
    let c = net.cfg.n_embd as int;
    let d = net.head_dim() as int;
    let t = qkv.dims[1] as int;
    Seq::new(d as nat, |e: int| qkv.bits[(r * t + k) * (3 * c) + part * c + h * d + e])
}

/// A position's row in a head is what was projected for it.
proof fn lemma_projected(net: Network, qkv: TensorValue, r: int, k: int, part: int, h: int)
    requires
        is_projection(net, qkv),
        0 <= part < 3,
        0 <= r < qkv.dims[0],
        0 <= h < net.cfg.n_head,
        0 <= k < qkv.dims[1],
    ensures
        net.slice(row(qkv, r * qkv.dims[1] + k), part, h) == projected(net, qkv, r, k, part, h),
{
    let c = net.cfg.n_embd as int;
    let d = net.head_dim() as int;
    let left = net.slice(row(qkv, r * qkv.dims[1] + k), part, h);
    let right = projected(net, qkv, r, k, part, h);
    assert forall|e: int| 0 <= e < d implies left[e] == right[e] by {
        assert(0 <= part * c + h * d + e < 3 * c) by (nonlinear_arith)
            requires
                0 <= part < 3,
                0 <= h < net.cfg.n_head,
                0 <= e < d,
                net.cfg.n_head * d == c,
        ;
    }
    assert(left =~= right);
}

/// Attention, number by number. Every position is projected to a query, a key and a value for
/// each head. The score of position `k` for position `q` is the product of the query of `q`
/// with the key of `k`, over the root of the head's width; it is shut out where `k` comes
/// later. The softmax of a position's scores weighs the values of the positions, and the heads'
/// mixed values, side by side, are projected once more.
pub proof fn law_attention_number_by_number(
    net: Network,
    j: int,
    x: TensorValue,
    y: TensorValue,
    steps: AttentionSteps,
    r: int,
    h: int,
    q: int,
    k: int,
    e: int,
)
    requires
        is_attending(net, j, x, y, steps),
        0 <= r < x.dims[0],
        0 <= h < net.cfg.n_head,
        0 <= q < x.dims[1],
        0 <= k < x.dims[1],
        0 <= e < net.head_dim(),
    ensures
        ({
            let c = net.cfg.n_embd as int;
            let d = net.head_dim() as int;
            let n = net.cfg.n_head as int;
            let t = x.dims[1] as int;
            let here = (r * n + h) * t + q;
            let root = number_root(ElementType::F64, count_bits(net.head_dim()));
            let factor = number(ElementType::F64, number_reciprocal(ElementType::F64, root));
            let weights = Seq::new(t as nat, |p: int| steps.weights.bits[here * t + p]);
            &&& d * n == c
            &&& linear_row_gives(
                net.layers[j].weight,
                net.layers[j].bias->Some_0,
                row(x, r * t + q),
                row(steps.qkv, r * t + q),
            )
            &&& steps.qkv.dims == seq![x.dims[0], x.dims[1], (c + c + c) as usize]
            &&& dot_gives(
                projected(net, steps.qkv, r, q, 0, h),
                projected(net, steps.qkv, r, k, 1, h),
                steps.scores.bits[here * t + k],
            )
            &&& steps.masked.bits[here * t + k] == number_sum(
                ElementType::F32,
                number_scaled(ElementType::F32, steps.scores.bits[here * t + k], factor),
                if k > q {
                    0xff80_0000u64
                } else {
                    0u64
                },
            )
            &&& softmax_row_gives(
                Seq::new(t as nat, |p: int| steps.masked.bits[here * t + p]),
                weights,
            )
            &&& dot_gives(
                weights,
                Seq::new(t as nat, |p: int| projected(net, steps.qkv, r, p, 2, h)[e]),
                steps.mixed.bits[here * d + e],
            )
            &&& linear_row_gives(
                net.layers[j + 1].weight,
                net.layers[j + 1].bias->Some_0,
                Seq::new(
                    c as nat,
                    |u: int| steps.mixed.bits[((r * n + u / d) * t + q) * d + u % d],
                ),
                row(y, r * t + q),
            )
        }),
{
    let qkv = steps.qkv;
    let c = net.cfg.n_embd as int;
    let d = net.head_dim() as int;
    let n = net.cfg.n_head as int;
    let t = x.dims[1] as int;
    let b = x.dims[0] as int;
    let g = r * n + h;
    let here = g * t + q;
    lemma_attention_shapes(net, j, x, y, steps);
    lemma_head_dim(net);
    assert(d * n == n * d) by (nonlinear_arith);
    lemma_index(r, b, h, n);
    lemma_index(g, b * n, q, t);
    lemma_index(r, b, q, t);
    lemma_volume_of(x.dims.drop_last());
    assert(qkv.dims =~= seq![x.dims[0], x.dims[1], (c + c + c) as usize]);
    let queries = net.heads(qkv, 0);
    let keys = swapped(net.heads(qkv, 1), 2, 3);
    let values = net.heads(qkv, 2);
    lemma_head_row(net, qkv, 0, r, h, q);
    lemma_projected(net, qkv, r, q, 0, h);
    lemma_key_column(net, qkv, r, h, k);
    lemma_projected(net, qkv, r, k, 1, h);
    assert(product_cell_gives(
        row(queries, g * queries.dims[2] + q),
        column(keys, g, k),
        cell(steps.scores, g, q, k),
    ));
    // The mask.
    lemma_volume_of(steps.scores.dims);
    let place = here * t + k;
    lemma_index(here, b * n * t, k, t);
    lemma_index(q, t, k, t);
    assert(place == g * (t * t) + (q * t + k)) by (nonlinear_arith)
        requires
            place == (g * t + q) * t + k,
    ;
    lemma_fundamental_div_mod_converse(place, t * t, g, q * t + k);
    law_mask_is_causal(x.dims[1], q, k);
    assert(mask(x.dims[1]).bits.len() == t * t);
    // The weights.
    lemma_volume_of(steps.masked.dims.drop_last());
    assert(steps.masked.dims == steps.scores.dims);
    let masked_row = row(steps.masked, here);
    let weight_row = row(steps.weights, here);
    assert(softmax_of_row_gives(masked_row, weight_row));
    assert(masked_row =~= Seq::new(t as nat, |p: int| steps.masked.bits[here * t + p]));
    let weights = Seq::new(t as nat, |p: int| steps.weights.bits[here * t + p]);
    assert(weight_row =~= weights);
    // The values.
    let whole = column(values, g, e);
    let listed = Seq::new(t as nat, |p: int| projected(net, qkv, r, p, 2, h)[e]);
    assert forall|p: int| 0 <= p < t implies whole[p] == listed[p] by {
        lemma_head_row(net, qkv, 2, r, h, p);
        lemma_projected(net, qkv, r, p, 2, h);
        assert(row(values, g * t + p)[e] == whole[p]);
    }
    assert(whole =~= listed);
    assert(product_cell_gives(
        row(steps.weights, g * steps.weights.dims[2] + q),
        whole,
        cell(steps.mixed, g, q, e),
    ));
    // The projection of all heads.
    let joined = reshaped(swapped(steps.mixed, 1, 2), x.dims);
    let merged = Seq::new(
        c as nat,
        |u: int| steps.mixed.bits[((r * n + u / d) * t + q) * d + u % d],
    );
    let joined_row = row(joined, r * t + q);
    assert forall|u: int| 0 <= u < c implies joined_row[u] == merged[u] by {
        let head = u / d;
        let rest = u % d;
        lemma_fundamental_div_mod(u, d);
        assert(0 <= rest < d);
        assert(0 <= head < n) by (nonlinear_arith)
            requires
                u == d * head + rest,
                0 <= u < n * d,
                0 <= rest < d,
        ;
        assert(head * d + rest == u) by (nonlinear_arith)
            requires
                u == d * head + rest,
        ;
        lemma_mixed_row(net, steps.mixed, x.dims, r, q, head, rest);
    }
    assert(joined_row =~= merged);
    assert(linear_row_gives(
        net.layers[j + 1].weight,
        net.layers[j + 1].bias->Some_0,
        joined_row,
        row(y, r * t + q),
    ));
}

/// What goes into a block: a batch of rows as wide as the embedding.
pub open spec fn is_batch_of_rows(net: Network, x: TensorValue, b: usize, t: usize) -> bool {
    &&& x.element == ElementType::F32
    &&& x.dims == seq![b, t, net.cfg.n_embd]
    &&& is_full(x)
}

/// A block, number by number. Its first normalization feeds attention, whose output is added
/// to what went into the block. The second normalization takes in that sum and feeds the
/// feed-forward network, whose output is added to that sum. Nothing of this depends on the
/// number of heads, blocks or positions.
pub proof fn law_block_number_by_number(
    net: Network,
    i: int,
    x: TensorValue,
    y: TensorValue,
    steps: BlockSteps,
    b: usize,
    t: usize,
    at: int,
    e: int,
    f: int,
)
    requires
        net.is_valid(),
        0 <= i < net.cfg.n_layer,
        is_batch_of_rows(net, x, b, t),
        net.passes(i, x, y, steps),
        0 <= at < b * t,
        0 <= e < net.cfg.n_embd,
        0 <= f < 4 * net.cfg.n_embd,
    ensures
        ({
            let c = net.cfg.n_embd as int;
            let first = 2 + 6 * i;
            let epsilon = number(ElementType::F64, 0x3ee4_f8b5_88e3_68f1);
            let between = Seq::new(
                c as nat,
                |u: int|
                    number_sum(
                        ElementType::F32,
                        x.bits[at * c + u],
                        steps.attended.bits[at * c + u],
                    ),
            );
            &&& normalization_row_gives(
                net.layers[first].weight,
                net.layers[first].bias->Some_0,
                epsilon,
                row(x, at),
                row(steps.normed, at),
            )
            &&& net.attends(first + 1, steps.normed, steps.attended, steps.attention)
            &&& normalization_row_gives(
                net.layers[first + 3].weight,
                net.layers[first + 3].bias->Some_0,
                epsilon,
                between,
                row(steps.normed_again, at),
            )
            &&& linear_row_gives(
                net.layers[first + 4].weight,
                net.layers[first + 4].bias->Some_0,
                row(steps.normed_again, at),
                row(steps.wide, at),
            )
            &&& gelu_number_gives(
                steps.wide.bits[at * (4 * c) + f],
                steps.active.bits[at * (4 * c) + f],
            )
            &&& linear_row_gives(
                net.layers[first + 5].weight,
                net.layers[first + 5].bias->Some_0,
                row(steps.active, at),
                row(steps.narrow, at),
            )
            &&& y.bits[at * c + e] == number_sum(
                ElementType::F32,
                number_sum(ElementType::F32, x.bits[at * c + e], steps.attended.bits[at * c + e]),
                steps.narrow.bits[at * c + e],
            )
            &&& steps.normed.dims == x.dims
            &&& steps.attended.dims == x.dims
            &&& steps.narrow.dims == x.dims
            &&& steps.wide.dims == seq![b, t, (4 * c) as usize]
            &&& is_batch_of_rows(net, y, b, t)
        }),
{
    let cfg = net.cfg;
    let c = cfg.n_embd;
    let n = cfg.n_layer as nat;
    lemma_layers_count(cfg, n);
    lemma_layers_below(cfg, n, i as nat, 2);
    lemma_layers_below(cfg, n, i as nat, 4);
    lemma_layers_below(cfg, n, i as nat, 5);
    let all = cfg.all_layers();
    assert(all[net.in_block(i, 2)] == cfg.block_layers(i as nat)[2]);
    assert(all[net.in_block(i, 4)] == cfg.block_layers(i as nat)[4]);
    assert(all[net.in_block(i, 5)] == cfg.block_layers(i as nat)[5]);
    assert(net.layers[net.in_block(i, 2)].weight.dims == seq![c, c]);
    assert(net.layers[net.in_block(i, 4)].weight.dims == seq![(4 * c) as usize, c]);
    assert(net.layers[net.in_block(i, 5)].weight.dims == seq![c, (4 * c) as usize]);
    assert(x.dims.drop_last() =~= seq![b, t]);
    lemma_volume_of(x.dims.drop_last());
    lemma_volume_of(x.dims);
    lemma_index(at, b * t, e, c as int);
    let between = sum(x, steps.attended);
    assert(steps.attended.dims =~= x.dims);
    let between_row = Seq::new(
        c as nat,
        |u: int|
            number_sum(ElementType::F32, x.bits[at * c + u], steps.attended.bits[at * c + u]),
    );
    assert forall|u: int| 0 <= u < c implies row(between, at)[u] == between_row[u] by {
        lemma_index(at, b * t, u, c as int);
    }
    assert(row(between, at) =~= between_row);
    assert(row(steps.normed, at) == row(steps.normed, at));
    assert(steps.normed_again.dims == x.dims);
    assert(normalization_row_gives(
        net.layers[net.in_block(i, 3)].weight,
        net.layers[net.in_block(i, 3)].bias->Some_0,
        number(ElementType::F64, EPSILON),
        row(between, at),
        row(steps.normed_again, at),
    ));
    assert(steps.wide.dims =~= seq![b, t, (4 * c) as usize]);
    assert(steps.wide.dims.drop_last() =~= seq![b, t]);
    assert(steps.active.dims == steps.wide.dims);
    assert(steps.narrow.dims =~= x.dims);
    assert(linear_row_gives(
        net.layers[net.in_block(i, 4)].weight,
        net.layers[net.in_block(i, 4)].bias->Some_0,
        row(steps.normed_again, at),
        row(steps.wide, at),
    ));
    assert(linear_row_gives(
        net.layers[net.in_block(i, 5)].weight,
        net.layers[net.in_block(i, 5)].bias->Some_0,
        row(steps.active, at),
        row(steps.narrow, at),
    ));
    lemma_volume_of(steps.active.dims);
    lemma_index(at, b * t, f, 4 * c);
    assert(gelu_number_gives(
        steps.wide.bits[at * (4 * c) + f],
        steps.active.bits[at * (4 * c) + f],
    ));
}

/// Whatever goes in, the linear layer `j` puts out zeros.
pub open spec fn is_silent(net: Network, j: int) -> bool {
    forall|x: Seq<u64>, y: Seq<u64>, e: int|
        #[trigger] linear_row_gives(net.layers[j].weight, net.layers[j].bias->Some_0, x, y) && 0
            <= e < y.len() ==> #[trigger] y[e] == 0
}

/// The residual around attention: a block whose feed-forward projection puts out zeros gives
/// what went in plus what attention made of it, whatever the number of heads.
pub proof fn law_block_with_silent_feed_forward(
    net: Network,
    i: int,
    x: TensorValue,
    y: TensorValue,
    b: usize,
    t: usize,
)
    requires
        net.is_valid(),
        0 <= i < net.cfg.n_layer,
        is_batch_of_rows(net, x, b, t),
        net.block_gives(i, x, y),
        is_silent(net, 2 + 6 * i + 5),
    ensures
        exists|normed: TensorValue, attended: TensorValue, attention: AttentionSteps|
            {
                &&& net.normalization_at(2 + 6 * i, x, normed)
                &&& #[trigger] net.attends(2 + 6 * i + 1, normed, attended, attention)
                &&& forall|p: int|
                    0 <= p < x.bits.len() ==> #[trigger] y.bits[p] == number_sum(
                        ElementType::F32,
                        number_sum(ElementType::F32, x.bits[p], attended.bits[p]),
                        0,
                    )
            },
{
    let c = net.cfg.n_embd as int;
    let steps = choose|steps: BlockSteps| net.passes(i, x, y, steps);
    lemma_volume_of(x.dims);
    assert(net.attends(2 + 6 * i + 1, steps.normed, steps.attended, steps.attention));
    assert forall|p: int| 0 <= p < x.bits.len() implies #[trigger] y.bits[p] == number_sum(
        ElementType::F32,
        number_sum(ElementType::F32, x.bits[p], steps.attended.bits[p]),
        0,
    ) by {
        let at = p / c;
        let e = p % c;
        lemma_split_place(p, b * t, c);
        law_block_number_by_number(net, i, x, y, steps, b, t, at, e, 0);
        assert(row(steps.narrow, at)[e] == 0);
    }
}

/// The residual around the feed-forward network: a block whose attention projection puts out
/// zeros gives what went in plus what the feed-forward network made of it, whatever the number
/// of heads.
pub proof fn law_block_with_silent_attention(
    net: Network,
    i: int,
    x: TensorValue,
    y: TensorValue,
    b: usize,
    t: usize,
)
    requires
        net.is_valid(),
        net.cfg.n_head > 0,
        net.heads_tile(),
        b > 0,
        t > 0,
        0 <= i < net.cfg.n_layer,
        is_batch_of_rows(net, x, b, t),
        net.block_gives(i, x, y),
        is_silent(net, 2 + 6 * i + 2),
    ensures
        exists|
            between: TensorValue,
            normed: TensorValue,
            wide: TensorValue,
            active: TensorValue,
            narrow: TensorValue,
        |
            {
                &&& is_batch_of_rows(net, between, b, t)
                &&& forall|p: int|
                    0 <= p < x.bits.len() ==> #[trigger] between.bits[p] == number_sum(
                        ElementType::F32,
                        x.bits[p],
                        0,
                    )
                &&& #[trigger] net.normalization_at(2 + 6 * i + 3, between, normed)
                &&& #[trigger] net.linear_at(2 + 6 * i + 4, normed, wide)
                &&& forall|p: int|
                    0 <= p < wide.bits.len() ==> gelu_number_gives(
                        wide.bits[p],
                        #[trigger] active.bits[p],
                    )
                &&& #[trigger] net.linear_at(2 + 6 * i + 5, active, narrow)
                &&& forall|p: int|
                    0 <= p < x.bits.len() ==> #[trigger] y.bits[p] == number_sum(
                        ElementType::F32,
                        between.bits[p],
                        narrow.bits[p],
                    )
            },
{
    let c = net.cfg.n_embd as int;
    let steps = choose|steps: BlockSteps| net.passes(i, x, y, steps);
    lemma_volume_of(x.dims);
    let between = sum(x, steps.attended);
    assert(net.normalization_at(2 + 6 * i + 3, between, steps.normed_again));
    assert(net.linear_at(2 + 6 * i + 4, steps.normed_again, steps.wide));
    assert(net.linear_at(2 + 6 * i + 5, steps.active, steps.narrow));
    let cfg = net.cfg;
    let n = cfg.n_layer as nat;
    lemma_layers_below(cfg, n, i as nat, 1);
    lemma_layers_below(cfg, n, i as nat, 2);
    assert(cfg.all_layers()[2 + 6 * i + 1] == cfg.block_layers(i as nat)[1]);
    assert(net.layers[2 + 6 * i + 1].weight.dims == seq![(3 * c) as usize, cfg.n_embd]);
    assert forall|p: int| 0 <= p < x.bits.len() implies #[trigger] between.bits[p] == number_sum(
        ElementType::F32,
        x.bits[p],
        0,
    ) && y.bits[p] == number_sum(ElementType::F32, between.bits[p], steps.narrow.bits[p]) by {
        let at = p / c;
        let e = p % c;
        lemma_split_place(p, b * t, c);
        law_block_number_by_number(net, i, x, y, steps, b, t, at, e, 0);
        lemma_split_place(at, b as int, t as int);
        let r = at / t as int;
        let q = at % t as int;
        lemma_head_dim(net);
        law_attention_number_by_number(
            net,
            2 + 6 * i + 1,
            steps.normed,
            steps.attended,
            steps.attention,
            r,
            0,
            q,
            0,
            0,
        );
        assert(row(steps.attended, at)[e] == 0);
    }
}

/// A place in a matrix, as its row and column.
proof fn lemma_split_place(p: int, rows: int, width: int)
    requires
        0 <= p < rows * width,
        0 < width,
    ensures
        0 <= p / width < rows,
        0 <= p % width < width,
        p == p / width * width + p % width,
{
    lemma_fundamental_div_mod(p, width);
    let q = p / width;
    assert(p == q * width + p % width) by (nonlinear_arith)
        requires
            p == width * q + p % width,
    ;
    assert(0 <= q < rows) by (nonlinear_arith)
        requires
            p == q * width + p % width,
            0 <= p < rows * width,
            0 <= p % width < width,
            0 < width,
    ;
}

/// Every value between the blocks has the same shape.
proof fn lemma_values_between_blocks(net: Network, ids: TensorValue, pass: Pass, i: int)
    requires
        net.is_valid(),
        is_batch_shape(ids.dims),
        is_full(ids),
        net.flows(ids, pass.xs, pass.blocks),
        0 <= i < pass.xs.len(),
    ensures
        is_batch_of_rows(net, pass.xs[i], ids.dims[0], ids.dims[1]),
    decreases i,
{
    if i == 0 {
        law_embedding_number_by_number(net, ids, 0, 0, 0);
        law_layers_around_the_blocks(net.cfg);
        assert(net.layers[0].weight.element == ElementType::F32);
    } else {
        lemma_values_between_blocks(net, ids, pass, i - 1);
        assert(net.flows_through(pass.xs, pass.blocks, i - 1));
    }
}

/// The model, layer by layer: the embedded tokens go through every block in turn, each taking
/// in what the one before it gave, then through the last normalization and the output layer,
/// which has a logit for each character of the vocabulary.
pub proof fn law_model_layer_by_layer(
    net: Network,
    ids: TensorValue,
    pass: Pass,
    logits: TensorValue,
    i: int,
    at: int,
)
    requires
        net.is_valid(),
        is_batch_shape(ids.dims),
        is_full(ids),
        net.goes_through(ids, pass, logits),
        0 <= i < net.cfg.n_layer || net.cfg.n_layer == 0,
        0 <= at < ids.dims[0] * ids.dims[1],
    ensures
        ({
            let n = net.cfg.n_layer as int;
            let last = 2 + 6 * n;
            &&& pass.xs.len() == n + 1
            &&& pass.blocks.len() == n
            &&& pass.xs[0] == net.embedded(ids)
            &&& 0 <= i < n ==> net.passes(i, pass.xs[i], pass.xs[i + 1], pass.blocks[i])
            &&& 0 <= i < n ==> is_batch_of_rows(net, pass.xs[i], ids.dims[0], ids.dims[1])
            &&& normalization_row_gives(
                net.layers[last].weight,
                net.layers[last].bias->Some_0,
                number(ElementType::F64, 0x3ee4_f8b5_88e3_68f1),
                row(pass.xs[n], at),
                row(pass.normed, at),
            )
            &&& linear_row_gives(
                net.layers[last + 1].weight,
                net.layers[last + 1].bias->Some_0,
                row(pass.normed, at),
                row(logits, at),
            )
            &&& logits.dims == seq![ids.dims[0], ids.dims[1], net.cfg.vocab_size]
            &&& is_full(logits)
        }),
{
    let n = net.cfg.n_layer as int;
    lemma_values_between_blocks(net, ids, pass, n);
    if 0 <= i < n {
        lemma_values_between_blocks(net, ids, pass, i);
        assert(net.flows_through(pass.xs, pass.blocks, i));
    }
    law_layers_around_the_blocks(net.cfg);
    assert(net.layers[3 + 6 * n].weight.dims == seq![net.cfg.vocab_size, net.cfg.n_embd]);
    assert(pass.xs[n].dims.drop_last() =~= seq![ids.dims[0], ids.dims[1]]);
    lemma_volume_of(pass.xs[n].dims.drop_last());
    assert(row(pass.normed, at) == row(pass.normed, at));
    assert(normalization_row_gives(
        net.layers[net.in_block(n, 0)].weight,
        net.layers[net.in_block(n, 0)].bias->Some_0,
        number(ElementType::F64, EPSILON),
        row(pass.xs.last(), at),
        row(pass.normed, at),
    ));
    assert(linear_row_gives(
        net.layers[net.in_block(n, 1)].weight,
        net.layers[net.in_block(n, 1)].bias->Some_0,
        row(pass.normed, at),
        row(logits, at),
    ));
    assert(logits.dims =~= seq![ids.dims[0], ids.dims[1], net.cfg.vocab_size]);
}

/// The loss is the cross-entropy of the model's logits against the targets, position by
/// position over all sequences, none left out.
pub proof fn law_loss_is_over_every_position(
    net: Network,
    ids: TensorValue,
    targets: TensorValue,
    loss: TensorValue,
)
    requires
        net.is_valid(),
        is_batch_shape(ids.dims),
        is_full(ids),
        net.loss_may_be(ids, targets, loss),
    ensures
        exists|logits: TensorValue|
            {
                let positions = (ids.dims[0] * ids.dims[1]) as usize;
                &&& #[trigger] net.logits_may_be(ids, logits)
                &&& cross_entropy_gives(
                    TensorValue {
                        element: logits.element,
                        dims: seq![positions, net.cfg.vocab_size],
                        bits: logits.bits,
                    },
                    TensorValue {
                        element: targets.element,
                        dims: seq![positions],
                        bits: targets.bits,
                    },
                    loss,
                )
            },
{
    let logits = choose|logits: TensorValue|
        #[trigger] net.logits_may_be(ids, logits) && flat_loss_may_be(logits, targets, loss);
    let pass = choose|pass: Pass| net.goes_through(ids, pass, logits);
    lemma_index(0, ids.dims[0] as int, 0, ids.dims[1] as int);
    law_model_layer_by_layer(net, ids, pass, logits, 0, 0);
}

/// The first parameter of a layer that is not in order is reported by its name, the weight
/// before the bias: as missing where it is not there, and as unfit where its element type or
/// its dimensions are wrong.
pub proof fn law_first_flaw_is_reported(
    params: Map<Seq<char>, TensorValue>,
    path: Seq<char>,
    kind: LayerKind,
)
    ensures
        ({
            let weight = path + ".weight"@;
            let bias = path + ".bias"@;
            let (weight_dims, bias_dims) = match kind {
                LayerKind::Embedding { rows, dim } => (seq![rows, dim], None),
                LayerKind::Linear { inputs, outputs } => (
                    seq![outputs, inputs],
                    Some(seq![outputs]),
                ),
                LayerKind::LayerNorm { size } => (seq![size], Some(seq![size])),
            };
            let fits = |name: Seq<char>, dims: Seq<usize>|
                params.contains_key(name) && params[name].element == ElementType::F32
                    && params[name].dims == dims;
            let flaw = layer_flaw(params, (path, kind));
            &&& !params.contains_key(weight) ==> flaw == Some(Flaw::Missing(weight))
            &&& params.contains_key(weight) && !fits(weight, weight_dims) ==> flaw == Some(
                Flaw::Unfit(weight),
            )
            &&& fits(weight, weight_dims) ==> (bias_dims matches Some(dims) ==> {
                &&& !params.contains_key(bias) ==> flaw == Some(Flaw::Missing(bias))
                &&& params.contains_key(bias) && !fits(bias, dims) ==> flaw == Some(
                    Flaw::Unfit(bias),
                )
                &&& fits(bias, dims) ==> flaw is None
            })
            &&& fits(weight, weight_dims) && bias_dims is None ==> flaw is None
        }),
{
}

/// The error tells what is wrong with which parameter.
pub proof fn law_model_errors_name_the_parameter(e: ModelError, flaw: Flaw)
    requires
        e.reports(flaw),
    ensures
        flaw is Missing <==> e is Missing,
        flaw is Unfit <==> e is Unfit,
        e matches ModelError::Missing { name } ==> flaw == Flaw::Missing(name@),
        e matches ModelError::Unfit { name } ==> flaw == Flaw::Unfit(name@),
{
}

/// There is room for a batch just where the largest tensors on the way through the model can
/// be counted: the widest rows within a block, the logits, and the attention scores of all
/// heads.
pub proof fn law_room_for_a_batch(net: Network, b: usize, t: usize)
    requires
        4 * net.cfg.n_embd <= usize::MAX,
    ensures
        ({
            let c = net.cfg.n_embd;
            let wide = (c + c + c + c) as usize;
            net.holds(b as int, t as int) <==> t <= u32::MAX && volume(seq![b, t, wide])
                <= usize::MAX && volume(seq![b, t, net.cfg.vocab_size]) <= usize::MAX && volume(
                seq![b, net.cfg.n_head, t, t],
            ) <= usize::MAX
        }),
{
    let c = net.cfg.n_embd;
    lemma_volume_of(seq![b, t, (c + c + c + c) as usize]);
    lemma_volume_of(seq![b, t, net.cfg.vocab_size]);
    lemma_volume_of(seq![b, net.cfg.n_head, t, t]);
}

/// Token ids form a batch just where they make up a matrix that is not empty. The model owes
/// logits for them just where each of them lies within the vocabulary, or stands for no token
/// at all, and where the number of heads divides the width of the embedding, or there are no
/// blocks.
pub proof fn law_where_logits_are_owed(net: Network, ids: TensorValue)
    requires
        net.is_valid(),
    ensures
        ({
            let is_id = ids.element == ElementType::U8 || ids.element == ElementType::U32
                || ids.element == ElementType::I64;
            let known = is_id && forall|i: int|
                0 <= i < ids.bits.len() ==> #[trigger] ids.bits[i] < net.cfg.vocab_size
                    || ids.bits[i] == no_row(ids.element);
            let heads = net.cfg.n_layer > 0 ==> net.cfg.n_embd as int % net.cfg.n_head as int == 0;
            &&& is_batch_shape(ids.dims) <==> ids.dims.len() == 2 && ids.dims[0] > 0 && ids.dims[1]
                > 0
            &&& net.rows_for(ids) <==> known
            &&& net.is_defined_on(ids) <==> known && heads
        }),
{
    if net.cfg.n_layer > 0 {
        let width = net.cfg.n_embd as int;
        let heads = net.cfg.n_head as int;
        law_heads_tile_the_embedding(width, heads);
        lemma_fundamental_div_mod(width, heads);
        let d = width / heads;
        let rest = width % heads;
        assert(0 <= d <= width) by (nonlinear_arith)
            requires
                width == heads * d + rest,
                0 <= rest,
                rest < heads,
                0 <= width,
        ;
    }
    let rows = net.cfg.vocab_size as int;
    if net.rows_for(ids) {
        assert forall|i: int| 0 <= i < ids.bits.len() implies #[trigger] ids.bits[i]
            < net.cfg.vocab_size || ids.bits[i] == no_row(ids.element) by {
            assert(has_row(ids.element, ids.bits[i], rows));
        }
    }
}

} // verus!
