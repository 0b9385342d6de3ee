//! Causality: what the model says of a position is settled by the tokens of its own sequence
//! up to that position. Later tokens and the other sequences of the batch do not matter.
//!
//! A pass of a whole batch is held against a pass that knows of one sequence's tokens up to a
//! position and of nothing else.
use crate::layers::{
    addition_gives, cell, column, dot_gives, exchanged, finite_singles, gelu_number_gives, is_full,
    linear_row_gives, no_row, normalization_row_gives, product_cell_gives, reshaped, row,
    softmax_of_row_gives, softmax_row_gives, swapped, volume, NEGATIVE_INFINITY,
};
use crate::model::qkv_start;
use crate::tensor::{
    inverse_root_bits, is_finite, number, number_scaled, number_sum, scaled, sum, unsigned_zero,
    ElementType, TensorValue,
};
use crate::transformer::{
    is_batch_shape, law_heads_are_slices, law_mask_is_causal, lemma_layers_below,
    lemma_layers_count, lemma_place, mask, AttentionSteps, BlockSteps, Network, Pass, EPSILON,
};
use vstd::arithmetic::div_mod::lemma_fundamental_div_mod_converse;
use vstd::prelude::*;

verus! {

/// The values in between on the way through attention at one position: for each head the
/// scores of the positions so far and the weights that come of them, and the mixed values of
/// all heads.
pub struct HeadsAt {
    pub scores: Seq<Seq<u64>>,
    pub weights: Seq<Seq<u64>>,
    pub mixed: Seq<u64>,
}

/// The values in between on the way through a block at one position.
pub struct StepsAt {
    pub heads: HeadsAt,
    pub attended: Seq<u64>,
    pub normed_again: Seq<u64>,
    pub wide: Seq<u64>,
    pub active: Seq<u64>,
    pub narrow: Seq<u64>,
}

/// The values in between on the way of one sequence's first tokens through the model: for
/// each block and position what goes in, its normalization, its fused projection and the
/// further steps; and what the output layer takes in at the last position.
pub struct PrefixPass {
    pub xs: Seq<Seq<Seq<u64>>>,
    pub normed: Seq<Seq<Seq<u64>>>,
    pub qkv: Seq<Seq<Seq<u64>>>,
    pub steps: Seq<Seq<StepsAt>>,
    pub last: Seq<u64>,
}

/// Two rows added number by number.
pub open spec fn row_sum(a: Seq<u64>, b: Seq<u64>) -> Seq<u64> {
    Seq::new(a.len(), |e: int| number_sum(ElementType::F32, a[e], b[e]))
}

/// Number `e` of the row that `id` has in `table`.
pub open spec fn looked_up_at(table: TensorValue, element: ElementType, id: u64, e: int) -> u64 {
    if id == no_row(element) {
        0
    } else {
        table.bits[id * table.dims.last() + e]
    }
}

impl Network {
    /// Whether layer `j`, a linear one, may turn the row `x` into `y`.
    pub open spec fn linear_row_at(self, j: int, x: Seq<u64>, y: Seq<u64>) -> bool {
        linear_row_gives(self.layers[j].weight, self.layers[j].bias->Some_0, x, y)
    }

    /// Whether layer `j`, a normalization, may turn the row `x` into `y`.
    pub open spec fn normalization_row_at(self, j: int, x: Seq<u64>, y: Seq<u64>) -> bool {
        normalization_row_gives(
            self.layers[j].weight,
            self.layers[j].bias->Some_0,
            number(ElementType::F64, EPSILON),
            x,
            y,
        )
    }

    /// The query (0), key (1) or value (2) of head `h` in a position's fused projection.
    pub open spec fn slice(self, projection: Seq<u64>, part: int, h: int) -> Seq<u64> {
        Seq::new(
            self.head_dim() as nat,
            |e: int| projection[qkv_start(part, self.cfg.n_embd as int) + h * self.head_dim() + e],
        )
    }

    /// Number `e` of the values of head `h`, at each position up to `q`.
    pub open spec fn values_up_to(self, qkv: Seq<Seq<u64>>, q: int, h: int, e: int) -> Seq<u64> {
        Seq::new((q + 1) as nat, |k: int| self.slice(qkv[k], 2, h)[e])
    }

    /// A score as the softmax takes it in.
    pub open spec fn scaled_score(self, score: u64) -> u64 {
        unsigned_zero(
            ElementType::F32,
            number_scaled(
                ElementType::F32,
                score,
                number(ElementType::F64, inverse_root_bits(self.head_dim())),
            ),
        )
    }

    /// Whether head `h` may go by `heads` at position `q`, from the fused projections of the
    /// positions up to it.
    pub open spec fn head_at(self, qkv: Seq<Seq<u64>>, q: int, h: int, heads: HeadsAt) -> bool {
        &&& heads.scores[h].len() == q + 1
        &&& forall|k: int|
            0 <= k <= q ==> dot_gives(
                self.slice(qkv[q], 0, h),
                self.slice(qkv[k], 1, h),
                #[trigger] heads.scores[h][k],
            )
        &&& softmax_row_gives(
            heads.scores[h].map_values(|s: u64| self.scaled_score(s)),
            heads.weights[h],
        )
        &&& forall|e: int|
            0 <= e < self.head_dim() ==> dot_gives(
                heads.weights[h],
                #[trigger] self.values_up_to(qkv, q, h, e),
                heads.mixed[h * self.head_dim() + e],
            )
    }

    /// Whether attention, with its fused projection in layer `j`, may go by `qkv` and `heads`
    /// to `out` at position `q`, from the rows `x` of the positions up to it.
    pub open spec fn attends_at(
        self,
        j: int,
        x: Seq<Seq<u64>>,
        qkv: Seq<Seq<u64>>,
        q: int,
        heads: HeadsAt,
        out: Seq<u64>,
    ) -> bool {
        &&& forall|k: int| 0 <= k <= q ==> self.linear_row_at(j, x[k], #[trigger] qkv[k])
        &&& forall|h: int| 0 <= h < self.cfg.n_head ==> #[trigger] self.head_at(qkv, q, h, heads)
        &&& heads.mixed.len() == self.cfg.n_embd
        &&& self.linear_row_at(j + 1, heads.mixed, out)
    }

    /// Whether attention may give `out` at position `q`, from the rows `x` of the positions up
    /// to it.
    pub open spec fn attention_may_give(
        self,
        j: int,
        x: Seq<Seq<u64>>,
        q: int,
        out: Seq<u64>,
    ) -> bool {
        exists|qkv: Seq<Seq<u64>>, heads: HeadsAt| self.attends_at(j, x, qkv, q, heads, out)
    }

    /// Whether block `i` may go by `normed`, `qkv` and `steps` to `y` at position `q`, from the
    /// rows `x` of the positions up to it.
    pub open spec fn passes_at(
        self,
        i: int,
        x: Seq<Seq<u64>>,
        normed: Seq<Seq<u64>>,
        qkv: Seq<Seq<u64>>,
        q: int,
        y: Seq<u64>,
        steps: StepsAt,
    ) -> bool {
        let between = row_sum(x[q], steps.attended);
        &&& forall|k: int|
            0 <= k <= q ==> self.normalization_row_at(
                self.in_block(i, 0),
                x[k],
                #[trigger] normed[k],
            )
        &&& self.attends_at(self.in_block(i, 1), normed, qkv, q, steps.heads, steps.attended)
        &&& self.normalization_row_at(self.in_block(i, 3), between, steps.normed_again)
        &&& self.linear_row_at(self.in_block(i, 4), steps.normed_again, steps.wide)
        &&& steps.active.len() == steps.wide.len()
        &&& forall|e: int|
            0 <= e < steps.wide.len() ==> gelu_number_gives(
                steps.wide[e],
                #[trigger] steps.active[e],
            )
        &&& self.linear_row_at(self.in_block(i, 5), steps.active, steps.narrow)
        &&& y == row_sum(between, steps.narrow)
    }

    /// What the first block takes in at position `q` for the token `id`.
    pub open spec fn embedded_at(self, element: ElementType, id: u64, q: int) -> Seq<u64> {
        Seq::new(
            self.cfg.n_embd as nat,
            |e: int|
                number_sum(
                    ElementType::F32,
                    looked_up_at(self.layers[0].weight, element, id, e),
                    looked_up_at(self.layers[1].weight, ElementType::U32, q as u64, e),
                ),
        )
    }

    /// Whether block `i` may go by `pass` at position `q`.
    pub open spec fn prefix_flows_through(self, pass: PrefixPass, i: int, q: int) -> bool {
        self.passes_at(
            i,
            pass.xs[i],
            pass.normed[i],
            pass.qkv[i],
            q,
            pass.xs[i + 1][q],
            pass.steps[i][q],
        )
    }

    /// Whether the model may go by `pass` from a sequence that begins with `ids` to the logits
    /// `out` at the last of these.
    pub open spec fn prefix_goes_through(
        self,
        element: ElementType,
        ids: Seq<u64>,
        pass: PrefixPass,
        out: Seq<u64>,
    ) -> bool {
        let n = self.cfg.n_layer as int;
        &&& forall|q: int|
            0 <= q < ids.len() ==> #[trigger] pass.xs[0][q] == self.embedded_at(element, ids[q], q)
        &&& forall|i: int, q: int|
            0 <= i < n && 0 <= q < ids.len() ==> #[trigger] self.prefix_flows_through(pass, i, q)
        &&& self.normalization_row_at(
            self.in_block(n, 0),
            pass.xs[n][ids.len() - 1],
            pass.last,
        )
        &&& self.linear_row_at(self.in_block(n, 1), pass.last, out)
    }

    /// Whether the model may give the logits `out` behind the tokens `ids`, whatever follows
    /// them.
    pub open spec fn next_logits_may_be(
        self,
        element: ElementType,
        ids: Seq<u64>,
        out: Seq<u64>,
    ) -> bool {
        exists|pass: PrefixPass| self.prefix_goes_through(element, ids, pass, out)
    }

    /// The projections and the scaled scores on the way through attention are finite.
    pub open spec fn stays_finite(self, steps: AttentionSteps) -> bool {
        &&& steps.qkv.all_finite()
        &&& scaled(steps.scores, inverse_root_bits(self.head_dim())).all_finite()
    }

    /// The projections and the scaled scores of all blocks are finite.
    pub open spec fn pass_stays_finite(self, pass: Pass) -> bool {
        forall|i: int|
            0 <= i < pass.blocks.len() ==> self.stays_finite((#[trigger] pass.blocks[i]).attention)
    }
}

/// What a sequence begins with: tokens 0 to `q` of row `r`.
pub open spec fn beginning(ids: TensorValue, r: int, q: int) -> Seq<u64> {
    Seq::new((q + 1) as nat, |k: int| ids.bits[r * ids.dims[1] + k])
}

/// The rows of positions 0 to `q` of sequence `r`.
pub open spec fn rows_up_to(x: TensorValue, r: int, q: int) -> Seq<Seq<u64>> {
    Seq::new((q + 1) as nat, |k: int| row(x, r * x.dims[1] + k))
}

/// The volume of a list of dimensions, multiplied out.
proof fn lemma_volume(dims: Seq<usize>)
    ensures
        dims.len() == 2 ==> volume(dims) == dims[0] * dims[1],
        dims.len() == 3 ==> volume(dims) == dims[0] * dims[1] * dims[2],
        dims.len() == 4 ==> volume(dims) == dims[0] * dims[1] * dims[2] * dims[3],
{
    reveal_with_fuel(volume, 5);
    if dims.len() > 0 {
        assert(1 * dims[0] == dims[0]) by (nonlinear_arith);
    }
}

/// What the lemmas on attention are about: `b` sequences of `t` positions, their fused
/// projection, and a place in it.
pub open spec fn is_projection(net: Network, qkv: TensorValue) -> bool {
    &&& net.cfg.n_head > 0
    &&& net.cfg.n_embd > 0
    &&& 4 * net.cfg.n_embd <= usize::MAX
    &&& net.heads_tile()
    &&& qkv.element == ElementType::F32
    &&& qkv.dims.len() == 3
    &&& qkv.dims[2] == 3 * net.cfg.n_embd
    &&& is_full(qkv)
}

/// A position's row in a head's query, key or value is a slice of its fused projection.
pub proof fn lemma_head_row(net: Network, qkv: TensorValue, part: int, r: int, h: int, k: int)
    requires
        is_projection(net, qkv),
        0 <= part < 3,
        0 <= r < qkv.dims[0],
        0 <= h < net.cfg.n_head,
        0 <= k < qkv.dims[1],
    ensures
        net.heads(qkv, part).dims == seq![
            qkv.dims[0],
            net.cfg.n_head,
            qkv.dims[1],
            net.head_dim(),
        ],
        row(net.heads(qkv, part), (r * net.cfg.n_head + h) * qkv.dims[1] + k) == net.slice(
            row(qkv, r * qkv.dims[1] + k),
            part,
            h,
        ),
{
    lemma_volume(qkv.dims);
    let heads = net.heads(qkv, part);
    let d = net.head_dim() as int;
    let c = net.cfg.n_embd as int;
    let left = row(heads, (r * net.cfg.n_head + h) * qkv.dims[1] + k);
    let right = net.slice(row(qkv, r * qkv.dims[1] + k), part, h);
    lemma_head_dim(net);
    law_heads_are_slices(net, qkv, part, r, h, k, 0);
    assert forall|e: int| 0 <= e < d implies left[e] == right[e] by {
        let at = seq![r, h, k, e];
        law_heads_are_slices(net, qkv, part, r, h, k, e);
        lemma_place(heads.dims, at);
        assert(0 <= part * c + h * d + e < 3 * c) by (nonlinear_arith)
            requires
                0 <= part < 3,
                0 <= h < net.cfg.n_head,
                0 <= e < d,
                net.cfg.n_head * d == c,
        ;
    }
    assert(left =~= right);
}

/// Heads that take up the embedding are not empty.
pub proof fn lemma_head_dim(net: Network)
    requires
        net.cfg.n_head > 0,
        net.cfg.n_embd > 0,
        net.heads_tile(),
    ensures
        net.head_dim() > 0,
{
    let d = net.head_dim() as int;
    assert(d > 0) by (nonlinear_arith)
        requires
            net.cfg.n_head * d == net.cfg.n_embd,
            net.cfg.n_embd > 0,
            d >= 0,
    ;
}

/// A position's key, as a column of the turned keys.
pub proof fn lemma_key_column(net: Network, qkv: TensorValue, r: int, h: int, k: int)
    requires
        is_projection(net, qkv),
        0 <= r < qkv.dims[0],
        0 <= h < net.cfg.n_head,
        0 <= k < qkv.dims[1],
    ensures
        swapped(net.heads(qkv, 1), 2, 3).dims == seq![
            qkv.dims[0],
            net.cfg.n_head,
            net.head_dim(),
            qkv.dims[1],
        ],
        column(swapped(net.heads(qkv, 1), 2, 3), r * net.cfg.n_head + h, k) == net.slice(
            row(qkv, r * qkv.dims[1] + k),
            1,
            h,
        ),
{
    let keys = net.heads(qkv, 1);
    let turned = swapped(keys, 2, 3);
    let d = net.head_dim() as int;
    let left = column(turned, r * net.cfg.n_head + h, k);
    let right = net.slice(row(qkv, r * qkv.dims[1] + k), 1, h);
    lemma_head_dim(net);
    lemma_head_row(net, qkv, 1, r, h, k);
    lemma_heads_full(net, qkv, 1);
    assert(turned.dims =~= seq![qkv.dims[0], net.cfg.n_head, net.head_dim(), qkv.dims[1]]);
    assert forall|e: int| 0 <= e < d implies left[e] == right[e] by {
        let at = seq![r, h, e, k];
        let back = seq![r, h, k, e];
        lemma_place(turned.dims, at);
        lemma_place(keys.dims, back);
        assert(exchanged(at, 2, 3) =~= back);
        lemma_same_volume(turned.dims, keys.dims);
        let index = (r * net.cfg.n_head + h) * qkv.dims[1] + k;
        assert(row(keys, index)[e] == net.slice(row(qkv, r * qkv.dims[1] + k), 1, h)[e]);
    }
    assert(left =~= right);
}

/// Exchanging the last two dimensions does not change the volume.
proof fn lemma_same_volume(a: Seq<usize>, b: Seq<usize>)
    requires
        a.len() == 4,
        b.len() == 4,
        a[0] == b[0],
        a[1] == b[1],
        a[2] == b[3],
        a[3] == b[2],
    ensures
        a[0] * a[1] * a[2] * a[3] == b[0] * b[1] * b[2] * b[3],
        volume(a) == volume(b),
{
    lemma_volume(a);
    lemma_volume(b);
    let n = a[0] * a[1];
    assert(n * a[2] * a[3] == n * a[3] * a[2]) by (nonlinear_arith);
}

/// Queries, keys and values have all their elements.
proof fn lemma_heads_full(net: Network, qkv: TensorValue, part: int)
    requires
        is_projection(net, qkv),
        qkv.dims[0] > 0,
        qkv.dims[1] > 0,
    ensures
        net.heads(qkv, part).element == ElementType::F32,
        net.heads(qkv, part).bits.len() == qkv.dims[0] * net.cfg.n_head * qkv.dims[1]
            * net.head_dim(),
{
    let b = qkv.dims[0] as int;
    let t = qkv.dims[1] as int;
    let c = net.cfg.n_embd as int;
    let h = net.cfg.n_head as int;
    let d = net.head_dim() as int;
    lemma_volume(qkv.dims);
    lemma_fundamental_div_mod_converse(qkv.bits.len() as int, 3 * c, b * t, 0);
    assert(b * h * t * d == b * t * c) by (nonlinear_arith)
        requires
            h * d == c,
    ;
    assert(b * t * c >= 0) by (nonlinear_arith)
        requires
            b >= 0,
            t >= 0,
            c >= 0,
    ;
}

/// Number `e` of the values of a head, as a column, up to a position.
proof fn lemma_value_column(net: Network, qkv: TensorValue, r: int, h: int, q: int, e: int)
    requires
        is_projection(net, qkv),
        0 <= r < qkv.dims[0],
        0 <= h < net.cfg.n_head,
        0 <= q < qkv.dims[1],
        0 <= e < net.head_dim(),
    ensures
        column(net.heads(qkv, 2), r * net.cfg.n_head + h, e).len() == qkv.dims[1],
        column(net.heads(qkv, 2), r * net.cfg.n_head + h, e).take(q + 1) == net.values_up_to(
            rows_up_to(qkv, r, q),
            q,
            h,
            e,
        ),
        qkv.all_finite() ==> finite_singles(
            column(net.heads(qkv, 2), r * net.cfg.n_head + h, e),
        ),
{
    let values = net.heads(qkv, 2);
    let g = r * net.cfg.n_head + h;
    let t = qkv.dims[1] as int;
    let c = net.cfg.n_embd as int;
    let d = net.head_dim() as int;
    let whole = column(values, g, e);
    lemma_head_row(net, qkv, 2, r, h, 0);
    lemma_volume(qkv.dims);
    assert forall|k: int| 0 <= k < t implies #[trigger] whole[k] == net.slice(
        row(qkv, r * t + k),
        2,
        h,
    )[e] && (qkv.all_finite() ==> is_finite(ElementType::F32, whole[k])) by {
        lemma_head_row(net, qkv, 2, r, h, k);
        assert(row(values, g * t + k)[e] == whole[k]);
        let place = (r * t + k) * (3 * c) + (2 * c + h * d + e);
        assert(0 <= 2 * c + h * d + e < 3 * c) by (nonlinear_arith)
            requires
                0 <= h < net.cfg.n_head,
                0 <= e < d,
                net.cfg.n_head * d == c,
        ;
        assert(0 <= place < qkv.dims[0] * t * (3 * c)) by (nonlinear_arith)
            requires
                place == (r * t + k) * (3 * c) + (2 * c + h * d + e),
                0 <= 2 * c + h * d + e < 3 * c,
                0 <= r < qkv.dims[0],
                0 <= k < t,
        ;
        assert(whole[k] == qkv.bits[place]);
    }
    let kept = net.values_up_to(rows_up_to(qkv, r, q), q, h, e);
    assert(whole.take(q + 1) =~= kept) by {
        assert forall|k: int| 0 <= k <= q implies whole.take(q + 1)[k] == kept[k] by {
            assert(whole[k] == net.slice(row(qkv, r * t + k), 2, h)[e]);
        }
    }
}

/// A position's row of mixed values, all heads side by side.
pub proof fn lemma_mixed_row(net: Network, mixed: TensorValue, dims: Seq<usize>, r: int, q: int, h: int, e: int)
    requires
        net.cfg.n_head > 0,
        net.cfg.n_embd > 0,
        net.heads_tile(),
        dims.len() == 3,
        dims[2] == net.cfg.n_embd,
        mixed.dims == seq![dims[0], net.cfg.n_head, dims[1], net.head_dim()],
        is_full(mixed),
        0 <= r < dims[0],
        0 <= q < dims[1],
        0 <= h < net.cfg.n_head,
        0 <= e < net.head_dim(),
    ensures
        0 <= h * net.head_dim() + e < net.cfg.n_embd,
        row(reshaped(swapped(mixed, 1, 2), dims), r * dims[1] + q)[h * net.head_dim() + e] == cell(
            mixed,
            r * net.cfg.n_head + h,
            q,
            e,
        ),
{
    let turned = swapped(mixed, 1, 2);
    let joined = reshaped(turned, dims);
    let t = dims[1] as int;
    let c = net.cfg.n_embd as int;
    let d = net.head_dim() as int;
    let n = net.cfg.n_head as int;
    let at = seq![r, q, h, e];
    let back = seq![r, h, q, e];
    assert(turned.dims =~= seq![dims[0], dims[1], net.cfg.n_head, net.head_dim()]);
    lemma_place(turned.dims, at);
    lemma_place(mixed.dims, back);
    assert(exchanged(at, 1, 2) =~= back);
    lemma_volume(mixed.dims);
    let b = dims[0] as int;
    assert(b * t * n * d == b * n * t * d) by (nonlinear_arith);
    assert(0 <= h * d + e < c) by (nonlinear_arith)
        requires
            0 <= h < n,
            0 <= e < d,
            n * d == c,
    ;
    let place = ((r * t + q) * n + h) * d + e;
    assert(place == (r * t + q) * c + (h * d + e)) by (nonlinear_arith)
        requires
            place == ((r * t + q) * n + h) * d + e,
            n * d == c,
    ;
    assert(joined.bits[place] == cell(mixed, r * n + h, q, e));
}

/// A row of masked scores: up to its position the scaled scores, behind it negative infinity.
proof fn lemma_masked_row(
    net: Network,
    scores: TensorValue,
    masked: TensorValue,
    t: usize,
    g: int,
    q: int,
)
    requires
        scores.element == ElementType::F32,
        scores.dims.len() == 4,
        scores.dims[2] == t,
        scores.dims[3] == t,
        is_full(scores),
        scaled(scores, inverse_root_bits(net.head_dim())).all_finite(),
        addition_gives(scaled(scores, inverse_root_bits(net.head_dim())), mask(t), masked),
        0 <= g < scores.dims[0] * scores.dims[1],
        0 <= q < t,
    ensures
        row(masked, g * t + q).len() == t,
        row(masked, g * t + q).take(q + 1) == Seq::new(
            (q + 1) as nat,
            |k: int| cell(scores, g, q, k),
        ).map_values(|s: u64| net.scaled_score(s)),
        finite_singles(row(masked, g * t + q).take(q + 1)),
        forall|k: int| q < k < t ==> #[trigger] row(masked, g * t + q)[k] == NEGATIVE_INFINITY,
{
    let factor = inverse_root_bits(net.head_dim());
    let plain = scaled(scores, factor);
    let whole = row(masked, g * t + q);
    let kept = Seq::new((q + 1) as nat, |k: int| cell(scores, g, q, k)).map_values(
        |s: u64| net.scaled_score(s),
    );
    lemma_volume(scores.dims);
    let matrices = scores.dims[0] * scores.dims[1];
    assert forall|k: int| 0 <= k < t implies (k <= q ==> #[trigger] whole[k] == net.scaled_score(
        cell(scores, g, q, k),
    ) && is_finite(ElementType::F32, whole[k])) && (k > q ==> whole[k] == NEGATIVE_INFINITY) by {
        let place = (g * t + q) * t + k;
        assert(place == g * (t * t) + (q * t + k)) by (nonlinear_arith)
            requires
                place == (g * t + q) * t + k,
        ;
        assert(0 <= q * t + k < t * t) by (nonlinear_arith)
            requires
                0 <= q < t,
                0 <= k < t,
        ;
        assert(0 <= place < matrices * t * t) by (nonlinear_arith)
            requires
                place == g * (t * t) + (q * t + k),
                0 <= q * t + k < t * t,
                0 <= g < matrices,
        ;
        lemma_fundamental_div_mod_converse(place, t * t, g, q * t + k);
        law_mask_is_causal(t, q, k);
        assert(mask(t).bits.len() == t * t);
        assert(is_finite(ElementType::F32, plain.bits[place]));
        assert(masked.bits[place] == whole[k]);
    }
    assert(whole.take(q + 1) =~= kept);
}

/// The values in between at one position, out of those of the whole batch.
spec fn heads_of(net: Network, dims: Seq<usize>, steps: AttentionSteps, r: int, q: int) -> HeadsAt {
    let n = net.cfg.n_head as int;
    HeadsAt {
        scores: Seq::new(
            n as nat,
            |h: int| Seq::new((q + 1) as nat, |k: int| cell(steps.scores, r * n + h, q, k)),
        ),
        weights: Seq::new(
            n as nat,
            |h: int| row(steps.weights, (r * n + h) * dims[1] + q).take(q + 1),
        ),
        mixed: row(reshaped(swapped(steps.mixed, 1, 2), dims), r * dims[1] + q),
    }
}

/// Attention that was carried out, on a batch of rows as wide as the model takes them.
pub open spec fn is_attending(
    net: Network,
    j: int,
    x: TensorValue,
    y: TensorValue,
    steps: AttentionSteps,
) -> bool {
    &&& net.cfg.n_head > 0
    &&& net.cfg.n_embd > 0
    &&& 4 * net.cfg.n_embd <= usize::MAX
    &&& net.heads_tile()
    &&& net.layers[j].weight.dims.len() > 0
    &&& net.layers[j].weight.dims[0] == 3 * net.cfg.n_embd
    &&& x.element == ElementType::F32
    &&& x.dims.len() == 3
    &&& x.dims[0] > 0
    &&& x.dims[1] > 0
    &&& x.dims[2] == net.cfg.n_embd
    &&& net.attends(j, x, y, steps)
}

/// What the lemmas on attention start from.
spec fn is_attention(
    net: Network,
    j: int,
    x: TensorValue,
    y: TensorValue,
    steps: AttentionSteps,
) -> bool {
    &&& is_attending(net, j, x, y, steps)
    &&& net.stays_finite(steps)
}

/// The shapes on the way through attention.
pub proof fn lemma_attention_shapes(
    net: Network,
    j: int,
    x: TensorValue,
    y: TensorValue,
    steps: AttentionSteps,
)
    requires
        is_attending(net, j, x, y, steps),
    ensures
        is_projection(net, steps.qkv),
        steps.qkv.dims[0] == x.dims[0],
        steps.qkv.dims[1] == x.dims[1],
        net.heads(steps.qkv, 0).dims == seq![x.dims[0], net.cfg.n_head, x.dims[1], net.head_dim()],
        net.heads(steps.qkv, 2).dims == seq![x.dims[0], net.cfg.n_head, x.dims[1], net.head_dim()],
        steps.scores.dims == seq![x.dims[0], net.cfg.n_head, x.dims[1], x.dims[1]],
        steps.scores.element == ElementType::F32,
        is_full(steps.scores),
        steps.weights.dims == steps.scores.dims,
        steps.mixed.dims == seq![x.dims[0], net.cfg.n_head, x.dims[1], net.head_dim()],
        is_full(steps.mixed),
{
    assert(steps.qkv.dims =~= seq![x.dims[0], x.dims[1], (3 * net.cfg.n_embd) as usize]);
    lemma_head_row(net, steps.qkv, 0, 0, 0, 0);
    lemma_head_row(net, steps.qkv, 2, 0, 0, 0);
    lemma_key_column(net, steps.qkv, 0, 0, 0);
    lemma_heads_full(net, steps.qkv, 0);
    assert(steps.scores.dims =~= seq![x.dims[0], net.cfg.n_head, x.dims[1], x.dims[1]]);
    assert(steps.mixed.dims =~= seq![x.dims[0], net.cfg.n_head, x.dims[1], net.head_dim()]);
}

/// One head at one position.
proof fn lemma_head_at(
    net: Network,
    j: int,
    x: TensorValue,
    y: TensorValue,
    steps: AttentionSteps,
    r: int,
    q: int,
    last: int,
    h: int,
)
    requires
        is_attention(net, j, x, y, steps),
        0 <= r < x.dims[0],
        0 <= q <= last < x.dims[1],
        0 <= h < net.cfg.n_head,
    ensures
        net.head_at(rows_up_to(steps.qkv, r, last), q, h, heads_of(net, x.dims, steps, r, q)),
{
    let qkv = steps.qkv;
    let rows = rows_up_to(qkv, r, last);
    let heads = heads_of(net, x.dims, steps, r, q);
    let t = x.dims[1] as int;
    let n = net.cfg.n_head as int;
    let g = r * n + h;
    lemma_attention_shapes(net, j, x, y, steps);
    lemma_head_dim(net);
    assert(0 <= g < x.dims[0] * n) by (nonlinear_arith)
        requires
            g == r * n + h,
            0 <= r < x.dims[0],
            0 <= h < n,
    ;
    let queries = net.heads(qkv, 0);
    let keys = swapped(net.heads(qkv, 1), 2, 3);
    let values = net.heads(qkv, 2);
    lemma_head_row(net, qkv, 0, r, h, q);
    assert forall|k: int| 0 <= k <= q implies dot_gives(
        net.slice(rows[q], 0, h),
        net.slice(rows[k], 1, h),
        #[trigger] heads.scores[h][k],
    ) by {
        lemma_key_column(net, qkv, r, h, k);
        assert(product_cell_gives(
            row(queries, g * queries.dims[2] + q),
            column(keys, g, k),
            cell(steps.scores, g, q, k),
        ));
    }
    lemma_masked_row(net, steps.scores, steps.masked, x.dims[1], g, q);
    lemma_volume(x.dims.drop_last());
    let index = g * t + q;
    assert(0 <= index < x.dims[0] * n * t) by (nonlinear_arith)
        requires
            index == g * t + q,
            0 <= g < x.dims[0] * n,
            0 <= q < t,
    ;
    lemma_volume(steps.masked.dims.drop_last());
    assert(steps.masked.dims == steps.scores.dims);
    let masked = row(steps.masked, index);
    let weights = row(steps.weights, index);
    assert(softmax_of_row_gives(masked, weights));
    assert(masked.take(q + 1) == heads.scores[h].map_values(|s: u64| net.scaled_score(s)));
    assert(softmax_row_gives(masked.take(q + 1), weights.take(q + 1)));
    assert forall|e: int| 0 <= e < net.head_dim() implies dot_gives(
        heads.weights[h],
        #[trigger] net.values_up_to(rows, q, h, e),
        heads.mixed[h * net.head_dim() + e],
    ) by {
        lemma_value_column(net, qkv, r, h, q, e);
        lemma_mixed_row(net, steps.mixed, x.dims, r, q, h, e);
        assert(net.values_up_to(rows, q, h, e) =~= net.values_up_to(
            rows_up_to(qkv, r, q),
            q,
            h,
            e,
        ));
        let whole = column(values, g, e);
        assert(product_cell_gives(
            row(steps.weights, g * steps.weights.dims[2] + q),
            whole,
            cell(steps.mixed, g, q, e),
        ));
        assert(dot_gives(weights.take(q + 1), whole.take(q + 1), cell(steps.mixed, g, q, e)));
    }
}

/// Attention at one position.
proof fn lemma_attends_at(
    net: Network,
    j: int,
    x: TensorValue,
    y: TensorValue,
    steps: AttentionSteps,
    r: int,
    q: int,
    last: int,
)
    requires
        is_attention(net, j, x, y, steps),
        0 <= r < x.dims[0],
        0 <= q <= last < x.dims[1],
    ensures
        net.attends_at(
            j,
            rows_up_to(x, r, last),
            rows_up_to(steps.qkv, r, last),
            q,
            heads_of(net, x.dims, steps, r, q),
            row(y, r * x.dims[1] + q),
        ),
{
    let t = x.dims[1] as int;
    lemma_attention_shapes(net, j, x, y, steps);
    lemma_volume(x.dims.drop_last());
    let qkv = rows_up_to(steps.qkv, r, last);
    let xs = rows_up_to(x, r, last);
    assert forall|k: int| 0 <= k <= q implies net.linear_row_at(j, xs[k], #[trigger] qkv[k]) by {
        lemma_row_in_range(r, x.dims[0] as int, k, t);
        assert(linear_row_gives(
            net.layers[j].weight,
            net.layers[j].bias->Some_0,
            row(x, r * t + k),
            row(steps.qkv, r * t + k),
        ));
    }
    let heads = heads_of(net, x.dims, steps, r, q);
    assert forall|h: int| 0 <= h < net.cfg.n_head implies #[trigger] net.head_at(
        qkv,
        q,
        h,
        heads,
    ) by {
        lemma_head_at(net, j, x, y, steps, r, q, last, h);
    }
    lemma_row_in_range(r, x.dims[0] as int, q, t);
    let joined = reshaped(swapped(steps.mixed, 1, 2), x.dims);
    assert(linear_row_gives(
        net.layers[j + 1].weight,
        net.layers[j + 1].bias->Some_0,
        row(joined, r * t + q),
        row(y, r * t + q),
    ));
}

/// Position `k` of sequence `r` is one of the rows of a batch.
proof fn lemma_row_in_range(r: int, b: int, k: int, t: int)
    requires
        0 <= r < b,
        0 <= k < t,
    ensures
        0 <= r * t + k < b * t,
{
    assert(0 <= r * t + k < b * t) by (nonlinear_arith)
        requires
            0 <= r < b,
            0 <= k < t,
    ;
}

/// Attention sees no future: where the projections and scores stay finite, what comes out at
/// a position may come out of the rows of its sequence up to that position, whatever follows
/// them and whatever the other sequences are.
pub proof fn law_attention_sees_no_future(
    net: Network,
    j: int,
    x: TensorValue,
    y: TensorValue,
    steps: AttentionSteps,
    r: int,
    q: int,
)
    requires
        net.is_valid(),
        net.cfg.n_head > 0,
        net.heads_tile(),
        0 <= j < net.layers.len(),
        net.layers[j].weight.dims == seq![(3 * net.cfg.n_embd) as usize, net.cfg.n_embd],
        x.element == ElementType::F32,
        x.dims.len() == 3,
        x.dims[2] == net.cfg.n_embd,
        net.attends(j, x, y, steps),
        net.stays_finite(steps),
        0 <= r < x.dims[0],
        0 <= q < x.dims[1],
    ensures
        net.attention_may_give(j, rows_up_to(x, r, q), q, row(y, r * x.dims[1] + q)),
{
    lemma_attends_at(net, j, x, y, steps, r, q, q);
}

/// The values in between at one position, out of those of the whole batch.
spec fn steps_of(net: Network, dims: Seq<usize>, steps: BlockSteps, r: int, q: int) -> StepsAt {
    let index = r * dims[1] + q;
    StepsAt {
        heads: heads_of(net, dims, steps.attention, r, q),
        attended: row(steps.attended, index),
        normed_again: row(steps.normed_again, index),
        wide: row(steps.wide, index),
        active: row(steps.active, index),
        narrow: row(steps.narrow, index),
    }
}

/// What goes into a block or comes out of it: a batch of rows as wide as the embedding.
spec fn is_stream(net: Network, x: TensorValue, b: usize, t: usize) -> bool {
    &&& x.element == ElementType::F32
    &&& x.dims == seq![b, t, net.cfg.n_embd]
    &&& is_full(x)
}

/// A row of a sum is the sum of the rows.
proof fn lemma_row_of_sum(net: Network, x: TensorValue, y: TensorValue, b: usize, t: usize, i: int)
    requires
        is_stream(net, x, b, t),
        y.dims == x.dims,
        0 <= i < b * t,
    ensures
        row(sum(x, y), i) == row_sum(row(x, i), row(y, i)),
        is_stream(net, sum(x, y), b, t),
{
    let c = net.cfg.n_embd as int;
    lemma_volume(x.dims);
    assert forall|e: int| 0 <= e < c implies row(sum(x, y), i)[e] == row_sum(
        row(x, i),
        row(y, i),
    )[e] by {
        assert(0 <= i * c + e < b * t * c) by (nonlinear_arith)
            requires
                0 <= i < b * t,
                0 <= e < c,
        ;
    }
    assert(row(sum(x, y), i) =~= row_sum(row(x, i), row(y, i)));
}

/// One block at one position.
proof fn lemma_passes_at(
    net: Network,
    i: int,
    x: TensorValue,
    y: TensorValue,
    steps: BlockSteps,
    b: usize,
    t: usize,
    r: int,
    q: int,
    last: int,
)
    requires
        net.is_valid(),
        net.heads_tile(),
        0 <= i < net.cfg.n_layer,
        is_stream(net, x, b, t),
        net.passes(i, x, y, steps),
        net.stays_finite(steps.attention),
        0 <= r < b,
        0 <= q <= last < t,
    ensures
        is_stream(net, y, b, t),
        net.passes_at(
            i,
            rows_up_to(x, r, last),
            rows_up_to(steps.normed, r, last),
            rows_up_to(steps.attention.qkv, r, last),
            q,
            row(y, r * t + q),
            steps_of(net, x.dims, steps, r, q),
        ),
{
    let cfg = net.cfg;
    let c = cfg.n_embd;
    let index = r * t + q;
    let between = sum(x, steps.attended);
    lemma_layers_below(cfg, cfg.n_layer as nat, i as nat, 1);
    lemma_layers_below(cfg, cfg.n_layer as nat, i as nat, 2);
    lemma_layers_below(cfg, cfg.n_layer as nat, i as nat, 4);
    lemma_layers_below(cfg, cfg.n_layer as nat, i as nat, 5);
    let all = cfg.all_layers();
    assert(all[net.in_block(i, 1)] == cfg.block_layers(i as nat)[1]);
    assert(all[net.in_block(i, 2)] == cfg.block_layers(i as nat)[2]);
    assert(all[net.in_block(i, 4)] == cfg.block_layers(i as nat)[4]);
    assert(all[net.in_block(i, 5)] == cfg.block_layers(i as nat)[5]);
    assert(net.layers[net.in_block(i, 1)].weight.dims == seq![(3 * c) as usize, c]);
    assert(net.layers[net.in_block(i, 2)].weight.dims == seq![c, c]);
    assert(net.layers[net.in_block(i, 4)].weight.dims == seq![(4 * c) as usize, c]);
    assert(net.layers[net.in_block(i, 5)].weight.dims == seq![c, (4 * c) as usize]);

    lemma_volume(x.dims.drop_last());
    lemma_row_in_range(r, b as int, q, t as int);
    lemma_attends_at(
        net,
        net.in_block(i, 1),
        steps.normed,
        steps.attended,
        steps.attention,
        r,
        q,
        last,
    );
    let rows = rows_up_to(x, r, last);
    let normed = rows_up_to(steps.normed, r, last);
    assert forall|k: int| 0 <= k <= q implies net.normalization_row_at(
        net.in_block(i, 0),
        rows[k],
        #[trigger] normed[k],
    ) by {
        lemma_row_in_range(r, b as int, k, t as int);
        assert(normed[k] == row(steps.normed, r * t + k));
    }
    assert(steps.attended.dims =~= x.dims);
    lemma_row_of_sum(net, x, steps.attended, b, t, index);
    assert(row(steps.normed_again, index) == steps_of(net, x.dims, steps, r, q).normed_again);
    assert(steps.normed_again.dims == x.dims);
    assert(steps.wide.dims =~= seq![b, t, (4 * c) as usize]);
    assert(steps.narrow.dims =~= seq![b, t, c]);
    assert(row(steps.wide, index) == steps_of(net, x.dims, steps, r, q).wide);
    assert(steps.wide.dims.drop_last() =~= seq![b, t]);
    assert(x.dims.drop_last() =~= seq![b, t]);
    assert(row(steps.narrow, index) == steps_of(net, x.dims, steps, r, q).narrow);
    let wide = row(steps.wide, index);
    let active = row(steps.active, index);
    lemma_volume(steps.active.dims);
    assert forall|e: int| 0 <= e < wide.len() implies gelu_number_gives(
        wide[e],
        #[trigger] active[e],
    ) by {
        let width = 4 * c;
        let place = index * width + e;
        assert(0 <= place < b * t * width) by (nonlinear_arith)
            requires
                place == index * width + e,
                0 <= index < b * t,
                0 <= e < width,
        ;
        assert(gelu_number_gives(steps.wide.bits[place], steps.active.bits[place]));
    }
    lemma_row_of_sum(net, between, steps.narrow, b, t, index);
}

/// What the first block takes in at one position.
proof fn lemma_embedded_at(net: Network, ids: TensorValue, r: int, q: int)
    requires
        net.is_valid(),
        is_batch_shape(ids.dims),
        is_full(ids),
        0 <= r < ids.dims[0],
        0 <= q < ids.dims[1],
    ensures
        is_stream(net, net.embedded(ids), ids.dims[0], ids.dims[1]),
        row(net.embedded(ids), r * ids.dims[1] + q) == net.embedded_at(
            ids.element,
            ids.bits[r * ids.dims[1] + q],
            q,
        ),
{
    let cfg = net.cfg;
    let c = cfg.n_embd as int;
    let b = ids.dims[0] as int;
    let t = ids.dims[1] as int;
    let index = r * t + q;
    let x = net.embedded(ids);
    lemma_layers_count(cfg, cfg.n_layer as nat);
    assert(cfg.all_layers()[0] == cfg.layers_below(0)[0]);
    assert(cfg.all_layers()[1] == cfg.layers_below(0)[1]);
    assert(net.layers[0].weight.dims == seq![cfg.vocab_size, cfg.n_embd]);
    assert(net.layers[1].weight.dims == seq![cfg.block_size, cfg.n_embd]);
    lemma_volume(ids.dims);
    assert(x.dims =~= seq![ids.dims[0], ids.dims[1], cfg.n_embd]);
    lemma_volume(x.dims);
    lemma_row_in_range(r, b, q, t);
    let left = row(x, index);
    let right = net.embedded_at(ids.element, ids.bits[index], q);
    assert(0 <= b * t * c) by (nonlinear_arith)
        requires
            0 <= b,
            0 <= t,
            0 <= c,
    ;
    assert(0 <= t * c) by (nonlinear_arith)
        requires
            0 <= t,
            0 <= c,
    ;
    assert forall|e: int| 0 <= e < c implies left[e] == right[e] by {
        let place = index * c + e;
        assert(0 <= place < b * t * c) by (nonlinear_arith)
            requires
                place == index * c + e,
                0 <= index < b * t,
                0 <= e < c,
        ;
        assert(0 <= q * c + e < t * c) by (nonlinear_arith)
            requires
                0 <= q < t,
                0 <= e < c,
        ;
        assert(place == r * (t * c) + (q * c + e)) by (nonlinear_arith)
            requires
                place == index * c + e,
                index == r * t + q,
        ;
        lemma_fundamental_div_mod_converse(place, c, index, e);
        lemma_fundamental_div_mod_converse(place, t * c, r, q * c + e);
        lemma_fundamental_div_mod_converse(q * c + e, c, q, e);
    }
    assert(left =~= right);
}

/// Every value on the way from block to block is a batch of rows as wide as the embedding.
proof fn lemma_streams(net: Network, ids: TensorValue, pass: Pass, i: int)
    requires
        net.is_valid(),
        net.cfg.n_layer > 0 ==> net.heads_tile(),
        is_batch_shape(ids.dims),
        is_full(ids),
        net.flows(ids, pass.xs, pass.blocks),
        pass.blocks.len() == net.cfg.n_layer,
        net.pass_stays_finite(pass),
        0 <= i <= net.cfg.n_layer,
    ensures
        is_stream(net, pass.xs[i], ids.dims[0], ids.dims[1]),
    decreases i,
{
    if i == 0 {
        lemma_embedded_at(net, ids, 0, 0);
    } else {
        lemma_streams(net, ids, pass, i - 1);
        assert(net.flows_through(pass.xs, pass.blocks, i - 1));
        assert(net.stays_finite(pass.blocks[i - 1].attention));
        lemma_passes_at(
            net,
            i - 1,
            pass.xs[i - 1],
            pass.xs[i],
            pass.blocks[i - 1],
            ids.dims[0],
            ids.dims[1],
            0,
            0,
            0,
        );
    }
}

/// A pass of a whole batch, as far as the beginning of one sequence goes.
spec fn prefix_of(net: Network, ids: TensorValue, pass: Pass, r: int, q: int) -> PrefixPass {
    let n = net.cfg.n_layer as int;
    let dims = pass.xs[0].dims;
    PrefixPass {
        xs: Seq::new((n + 1) as nat, |i: int| rows_up_to(pass.xs[i], r, q)),
        normed: Seq::new(n as nat, |i: int| rows_up_to(pass.blocks[i].normed, r, q)),
        qkv: Seq::new(n as nat, |i: int| rows_up_to(pass.blocks[i].attention.qkv, r, q)),
        steps: Seq::new(
            n as nat,
            |i: int|
                Seq::new((q + 1) as nat, |k: int| steps_of(net, dims, pass.blocks[i], r, k)),
        ),
        last: row(pass.normed, r * ids.dims[1] + q),
    }
}

/// The model is causal: where the projections and scores stay finite, the logits at a
/// position may come out behind the tokens of its sequence up to that position, whatever
/// follows them and whatever the other sequences of the batch are.
pub proof fn law_logits_see_no_future(
    net: Network,
    ids: TensorValue,
    pass: Pass,
    logits: TensorValue,
    r: int,
    q: int,
)
    requires
        net.is_valid(),
        net.cfg.n_layer > 0 ==> net.heads_tile(),
        is_batch_shape(ids.dims),
        is_full(ids),
        net.goes_through(ids, pass, logits),
        net.pass_stays_finite(pass),
        0 <= r < ids.dims[0],
        0 <= q < ids.dims[1],
    ensures
        net.next_logits_may_be(
            ids.element,
            beginning(ids, r, q),
            row(logits, r * ids.dims[1] + q),
        ),
{
    let n = net.cfg.n_layer as int;
    let b = ids.dims[0];
    let t = ids.dims[1];
    let prefix = prefix_of(net, ids, pass, r, q);
    let tokens = beginning(ids, r, q);
    let out = row(logits, r * t + q);
    lemma_streams(net, ids, pass, 0);
    assert forall|k: int| 0 <= k < tokens.len() implies #[trigger] prefix.xs[0][k]
        == net.embedded_at(ids.element, tokens[k], k) by {
        lemma_embedded_at(net, ids, r, k);
    }
    assert forall|i: int, k: int| 0 <= i < n && 0 <= k < tokens.len() implies
        #[trigger] net.prefix_flows_through(prefix, i, k) by {
        lemma_streams(net, ids, pass, i);
        lemma_streams(net, ids, pass, i + 1);
        assert(net.flows_through(pass.xs, pass.blocks, i));
        assert(net.stays_finite(pass.blocks[i].attention));
        lemma_passes_at(net, i, pass.xs[i], pass.xs[i + 1], pass.blocks[i], b, t, r, k, q);
        assert(prefix.xs[i + 1][k] == row(pass.xs[i + 1], r * t + k));
        assert(prefix.steps[i][k] == steps_of(net, pass.xs[i].dims, pass.blocks[i], r, k));
    }
    lemma_streams(net, ids, pass, n);
    lemma_volume(pass.xs[n].dims.drop_last());
    lemma_row_in_range(r, b as int, q, t as int);
    assert(prefix.xs[n][q] == row(pass.xs[n], r * t + q));
    assert(row(pass.normed, r * t + q) == prefix.last);
    assert(net.normalization_row_at(net.in_block(n, 0), prefix.xs[n][tokens.len() - 1], prefix.last));
    assert(net.linear_row_at(net.in_block(n, 1), prefix.last, out));
    assert(net.prefix_goes_through(ids.element, tokens, prefix, out));
}

/// The logits of a position tell nothing of later tokens or of other sequences: of two
/// batches in which two sequences begin alike, what came out at a position of the one may
/// also come out at that position of the other.
pub proof fn law_later_tokens_do_not_matter(
    net: Network,
    ids: TensorValue,
    pass: Pass,
    logits: TensorValue,
    r: int,
    other: TensorValue,
    other_r: int,
    q: int,
)
    requires
        net.is_valid(),
        net.cfg.n_layer > 0 ==> net.heads_tile(),
        is_batch_shape(ids.dims),
        is_full(ids),
        net.goes_through(ids, pass, logits),
        net.pass_stays_finite(pass),
        0 <= r < ids.dims[0],
        0 <= q < ids.dims[1],
        ids.element == other.element,
        beginning(ids, r, q) == beginning(other, other_r, q),
    ensures
        net.next_logits_may_be(
            other.element,
            beginning(other, other_r, q),
            row(logits, r * ids.dims[1] + q),
        ),
{
    law_logits_see_no_future(net, ids, pass, logits, r, q);
}

} // verus!
