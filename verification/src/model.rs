//! The shape of the tiny transformer: its hyperparameters, the layers that it is built
//! from, and how attention splits them into heads.
use crate::text::{decimal, lemma_decimal_digits, lemma_decimal_injective, push_decimal};
use vstd::arithmetic::div_mod::lemma_fundamental_div_mod;
use vstd::prelude::*;

verus! {

/// Hyperparameters for the tiny transformer.
#[derive(Debug, Clone)]
pub struct Config {
    pub vocab_size: usize,
    pub block_size: usize,
    pub n_embd: usize,
    pub n_head: usize,
    pub n_layer: usize,
}

/// What a layer is and how large.
#[derive(Debug, Clone, Copy, PartialEq, Eq, Structural)]
pub enum LayerKind {
    /// One vector of `dim` numbers per row.
    Embedding { rows: usize, dim: usize },
    /// An affine map.
    Linear { inputs: usize, outputs: usize },
    /// A normalization over `size` numbers.
    LayerNorm { size: usize },
}

/// A layer and the dotted path under which its parameters are kept.
pub struct LayerSpec {
    pub path: String,
    pub kind: LayerKind,
}

/// The path of a layer within block `i`.
pub open spec fn block_path(i: nat, suffix: Seq<char>) -> Seq<char> {
    "block_"@ + decimal(i) + suffix
}

impl LayerSpec {
    /// The path with the kind.
    pub open spec fn entry(self) -> (Seq<char>, LayerKind) {
        (self.path@, self.kind)
    }
}

impl Config {
    /// The default configuration: 2 layers of 128 dimensions with 4 heads.
    pub fn tiny(vocab_size: usize) -> (cfg: Config)
        ensures
            cfg.vocab_size == vocab_size,
            cfg.block_size == 64,
            cfg.n_embd == 128,
            cfg.n_head == 4,
            cfg.n_layer == 2,
    {
        Config { vocab_size, block_size: 64, n_embd: 128, n_head: 4, n_layer: 2 }
    }

    /// The layers of block `i`: a normalization before attention, attention with one fused
    /// projection for query, key and value, a normalization before the feed-forward network,
    /// and the network itself, four times as wide inside.
    pub open spec fn block_layers(self, i: nat) -> Seq<(Seq<char>, LayerKind)> {
        let n = self.n_embd;
        seq![
            (block_path(i, ".ln1"@), LayerKind::LayerNorm { size: n }),
            (
                block_path(i, ".attn.qkv"@),
                LayerKind::Linear { inputs: n, outputs: (3 * n) as usize },
            ),
            (block_path(i, ".attn.proj"@), LayerKind::Linear { inputs: n, outputs: n }),
            (block_path(i, ".ln2"@), LayerKind::LayerNorm { size: n }),
            (
                block_path(i, ".mlp.fc"@),
                LayerKind::Linear { inputs: n, outputs: (4 * n) as usize },
            ),
            (
                block_path(i, ".mlp.proj"@),
                LayerKind::Linear { inputs: (4 * n) as usize, outputs: n },
            ),
        ]
    }

    /// The token and position embeddings and the layers of the first `blocks` blocks.
    pub open spec fn layers_below(self, blocks: nat) -> Seq<(Seq<char>, LayerKind)>
        decreases blocks,
    {
        if blocks == 0 {
            seq![
                (
                    "tok_emb"@,
                    LayerKind::Embedding { rows: self.vocab_size, dim: self.n_embd },
                ),
                (
                    "pos_emb"@,
                    LayerKind::Embedding { rows: self.block_size, dim: self.n_embd },
                ),
            ]
        } else {
            self.layers_below((blocks - 1) as nat) + self.block_layers((blocks - 1) as nat)
        }
    }

    /// All layers in the order in which they are created.
    pub open spec fn all_layers(self) -> Seq<(Seq<char>, LayerKind)> {
        self.layers_below(self.n_layer as nat) + seq![
            ("ln_f"@, LayerKind::LayerNorm { size: self.n_embd }),
            ("head"@, LayerKind::Linear { inputs: self.n_embd, outputs: self.vocab_size }),
        ]
    }

    /// The path of a layer within block `i`.
    fn path_in_block(i: usize, suffix: &str) -> (path: String)
        ensures
            path@ == block_path(i as nat, suffix@),
    {
        let mut path = "block_".to_owned();
        push_decimal(&mut path, i as u64);
        path.append(suffix);
        path
    }

    /// The layers of the model, in the order in which they are created.
    pub fn layers(&self) -> (layers: Vec<LayerSpec>)
        requires
            4 * self.n_embd <= usize::MAX,
        ensures
            layers@.map_values(|l: LayerSpec| l.entry()) == self.all_layers(),
    {
        let n = self.n_embd;
        let mut layers: Vec<LayerSpec> = Vec::new();
        layers.push(
            LayerSpec {
                path: "tok_emb".to_owned(),
                kind: LayerKind::Embedding { rows: self.vocab_size, dim: n },
            },
        );
        layers.push(
            LayerSpec {
                path: "pos_emb".to_owned(),
                kind: LayerKind::Embedding { rows: self.block_size, dim: n },
            },
        );
        let mut i: usize = 0;
        assert(layers@.map_values(|l: LayerSpec| l.entry()) =~= self.layers_below(0));
        while i < self.n_layer
            invariant
                i <= self.n_layer,
                n == self.n_embd,
                4 * self.n_embd <= usize::MAX,
                layers@.map_values(|l: LayerSpec| l.entry()) == self.layers_below(i as nat),
            decreases self.n_layer - i,
        {
            let norm = LayerKind::LayerNorm { size: n };
            let qkv = LayerKind::Linear { inputs: n, outputs: 3 * n };
            let proj = LayerKind::Linear { inputs: n, outputs: n };
            let fc = LayerKind::Linear { inputs: n, outputs: 4 * n };
            let mlp_proj = LayerKind::Linear { inputs: 4 * n, outputs: n };
            layers.push(LayerSpec { path: Config::path_in_block(i, ".ln1"), kind: norm });
            layers.push(LayerSpec { path: Config::path_in_block(i, ".attn.qkv"), kind: qkv });
            layers.push(LayerSpec { path: Config::path_in_block(i, ".attn.proj"), kind: proj });
            layers.push(LayerSpec { path: Config::path_in_block(i, ".ln2"), kind: norm });
            layers.push(LayerSpec { path: Config::path_in_block(i, ".mlp.fc"), kind: fc });
            layers.push(LayerSpec { path: Config::path_in_block(i, ".mlp.proj"), kind: mlp_proj });
            i = i + 1;
            assert(layers@.map_values(|l: LayerSpec| l.entry()) =~= self.layers_below(i as nat));
        }
        layers.push(LayerSpec { path: "ln_f".to_owned(), kind: LayerKind::LayerNorm { size: n } });
        layers.push(
            LayerSpec {
                path: "head".to_owned(),
                kind: LayerKind::Linear { inputs: n, outputs: self.vocab_size },
            },
        );
        assert(layers@.map_values(|l: LayerSpec| l.entry()) =~= self.all_layers());
        layers
    }

    /// The width of one attention head.
    pub fn head_dim(&self) -> (dim: usize)
        requires
            self.n_head > 0,
        ensures
            dim == self.n_embd as int / self.n_head as int,
    {
        self.n_embd / self.n_head
    }
}

/// Where part `part` of a fused projection begins, each part being `width` numbers wide.
pub open spec fn qkv_start(part: int, width: int) -> int {
    part * width
}

/// Where the query (0), key (1) or value (2) begins in a fused projection of three times
/// `width` numbers.
pub fn qkv_offset(part: usize, width: usize) -> (offset: usize)
    requires
        part < 3,
        3 * width <= usize::MAX,
    ensures
        offset == qkv_start(part as int, width as int),
{
    assert(part * width <= 3 * width) by (nonlinear_arith)
        requires
            part < 3,
    ;
    part * width
}

/// Query, key and value tile the fused projection without gaps or overlap.
pub proof fn law_qkv_tile_the_projection(part: int, width: int)
    ensures
        qkv_start(0, width) == 0,
        qkv_start(part, width) + width == qkv_start(part + 1, width),
        qkv_start(3, width) == 3 * width,
{
    assert(part * width + width == (part + 1) * width) by (nonlinear_arith);
}

/// The heads take up the embedding exactly when their number divides it.
pub proof fn law_heads_tile_the_embedding(n_embd: int, n_head: int)
    requires
        0 < n_head,
    ensures
        n_head * (n_embd / n_head) == n_embd <==> n_embd % n_head == 0,
{
    lemma_fundamental_div_mod(n_embd, n_head);
}

/// `suffix` names a layer within a block.
pub open spec fn is_block_suffix(suffix: Seq<char>) -> bool {
    ||| suffix == ".ln1"@
    ||| suffix == ".attn.qkv"@
    ||| suffix == ".attn.proj"@
    ||| suffix == ".ln2"@
    ||| suffix == ".mlp.fc"@
    ||| suffix == ".mlp.proj"@
}

/// `path` is the path of a layer within block `i`.
pub open spec fn is_path_in_block(path: Seq<char>, i: nat) -> bool {
    exists|s: Seq<char>| is_block_suffix(s) && path == #[trigger] block_path(i, s)
}

/// The block number and the layer can be read off a path.
proof fn lemma_block_path_injective(i: nat, s: Seq<char>, j: nat, t: Seq<char>)
    requires
        s.len() > 0,
        t.len() > 0,
        s[0] == '.',
        t[0] == '.',
        block_path(i, s) == block_path(j, t),
    ensures
        i == j,
        s == t,
{
    let prefix = "block_"@;
    let left = block_path(i, s);
    let right = block_path(j, t);
    let a = decimal(i);
    let b = decimal(j);
    lemma_decimal_digits(i);
    lemma_decimal_digits(j);
    if a.len() < b.len() {
        assert(left[(prefix.len() + a.len()) as int] == '.');
        assert(right[(prefix.len() + a.len()) as int] == b[a.len() as int]);
    }
    if b.len() < a.len() {
        assert(right[(prefix.len() + b.len()) as int] == '.');
        assert(left[(prefix.len() + b.len()) as int] == a[b.len() as int]);
    }
    assert(a =~= left.subrange(prefix.len() as int, (prefix.len() + a.len()) as int));
    assert(b =~= right.subrange(prefix.len() as int, (prefix.len() + b.len()) as int));
    lemma_decimal_injective(i, j);
    assert(s =~= left.subrange((prefix.len() + a.len()) as int, left.len() as int));
    assert(t =~= right.subrange((prefix.len() + b.len()) as int, right.len() as int));
}

/// Suffixes begin with a dot.
proof fn lemma_suffix_dot(suffix: Seq<char>)
    requires
        is_block_suffix(suffix),
    ensures
        suffix.len() > 0,
        suffix[0] == '.',
{
    reveal_strlit(".ln1");
    reveal_strlit(".attn.qkv");
    reveal_strlit(".attn.proj");
    reveal_strlit(".ln2");
    reveal_strlit(".mlp.fc");
    reveal_strlit(".mlp.proj");
}

/// The layers of a block have different suffixes.
proof fn lemma_block_layers_distinct(cfg: Config, i: nat)
    ensures
        forall|a: int, b: int|
            0 <= a < 6 && 0 <= b < 6 && #[trigger] cfg.block_layers(i)[a].0
                == #[trigger] cfg.block_layers(i)[b].0 ==> a == b,
        forall|a: int|
            0 <= a < 6 ==> is_path_in_block((#[trigger] cfg.block_layers(i)[a]).0, i),
{
    reveal_strlit(".ln1");
    reveal_strlit(".attn.qkv");
    reveal_strlit(".attn.proj");
    reveal_strlit(".ln2");
    reveal_strlit(".mlp.fc");
    reveal_strlit(".mlp.proj");
    let suffixes: Seq<Seq<char>> = seq![
        ".ln1"@,
        ".attn.qkv"@,
        ".attn.proj"@,
        ".ln2"@,
        ".mlp.fc"@,
        ".mlp.proj"@,
    ];
    assert(".ln1"@[3] != ".ln2"@[3]);
    assert(".attn.qkv"@[1] != ".mlp.proj"@[1]);
    assert forall|a: int, b: int| 0 <= a < 6 && 0 <= b < 6 && suffixes[a] == suffixes[b] implies a
        == b by {
        assert(suffixes[a].len() == suffixes[b].len());
    }
    assert forall|a: int| 0 <= a < 6 implies (#[trigger] cfg.block_layers(i)[a]).0 == block_path(
        i,
        suffixes[a],
    ) && is_block_suffix(suffixes[a]) by {}
    assert forall|a: int| 0 <= a < 6 implies is_path_in_block(
        (#[trigger] cfg.block_layers(i)[a]).0,
        i,
    ) by {
        assert(cfg.block_layers(i)[a].0 == block_path(i, suffixes[a]));
    }
    assert forall|a: int, b: int|
        0 <= a < 6 && 0 <= b < 6 && #[trigger] cfg.block_layers(i)[a].0
            == #[trigger] cfg.block_layers(i)[b].0 implies a == b by {
        lemma_suffix_dot(suffixes[a]);
        lemma_suffix_dot(suffixes[b]);
        lemma_block_path_injective(i, suffixes[a], i, suffixes[b]);
    }
}

/// A path of the embeddings or of one of the first `blocks` blocks.
pub open spec fn is_path_below(path: Seq<char>, blocks: nat) -> bool {
    ||| path == "tok_emb"@
    ||| path == "pos_emb"@
    ||| exists|i: nat, s: Seq<char>|
        i < blocks && is_block_suffix(s) && path == #[trigger] block_path(i, s)
}

/// Paths of blocks begin differently from all others.
proof fn lemma_other_paths(i: nat, s: Seq<char>)
    ensures
        block_path(i, s) != "tok_emb"@,
        block_path(i, s) != "pos_emb"@,
        block_path(i, s) != "ln_f"@,
        block_path(i, s) != "head"@,
{
    reveal_strlit("block_");
    reveal_strlit("tok_emb");
    reveal_strlit("pos_emb");
    reveal_strlit("ln_f");
    reveal_strlit("head");
    assert(block_path(i, s)[0] == 'b');
    assert("tok_emb"@[0] == 't');
    assert("pos_emb"@[0] == 'p');
    assert("ln_f"@[0] == 'l');
    assert("head"@[0] == 'h');
}

/// The paths of the embeddings and the first blocks are all different.
proof fn lemma_paths_below(cfg: Config, blocks: nat)
    ensures
        forall|a: int|
            0 <= a < cfg.layers_below(blocks).len() ==> is_path_below(
                (#[trigger] cfg.layers_below(blocks)[a]).0,
                blocks,
            ),
        forall|a: int, b: int|
            0 <= a < cfg.layers_below(blocks).len() && 0 <= b < cfg.layers_below(blocks).len()
                && #[trigger] cfg.layers_below(blocks)[a].0 == #[trigger] cfg.layers_below(
                blocks,
            )[b].0 ==> a == b,
    decreases blocks,
{
    let all = cfg.layers_below(blocks);
    if blocks == 0 {
        reveal_strlit("tok_emb");
        reveal_strlit("pos_emb");
        assert("tok_emb"@[0] == 't');
        assert("pos_emb"@[0] == 'p');
    } else {
        let last = (blocks - 1) as nat;
        let below = cfg.layers_below(last);
        let block = cfg.block_layers(last);
        lemma_paths_below(cfg, last);
        lemma_block_layers_distinct(cfg, last);
        assert(all =~= below + block);
        assert forall|a: int| 0 <= a < all.len() implies is_path_below(
            (#[trigger] all[a]).0,
            blocks,
        ) by {
            if a < below.len() {
                assert(is_path_below(below[a].0, last));
            } else {
                assert(is_path_in_block(block[a - below.len()].0, last));
                let s = choose|s: Seq<char>|
                    is_block_suffix(s) && block[a - below.len()].0 == #[trigger] block_path(last, s);
                assert(all[a].0 == block_path(last, s));
            }
        }
        assert forall|a: int, b: int|
            0 <= a < all.len() && 0 <= b < all.len() && #[trigger] all[a].0
                == #[trigger] all[b].0 implies a == b by {
            if a < below.len() && b < below.len() {
                assert(below[a].0 == below[b].0);
            } else if a >= below.len() && b >= below.len() {
                assert(block[a - below.len()].0 == block[b - below.len()].0);
            } else {
                let low = if a < b { a } else { b };
                let high = if a < b { b } else { a };
                assert(is_path_in_block(block[high - below.len()].0, last));
                let t = choose|t: Seq<char>|
                    is_block_suffix(t) && block[high - below.len()].0 == #[trigger] block_path(last, t);
                lemma_other_paths(last, t);
                lemma_suffix_dot(t);
                assert(is_path_below(below[low].0, last));
                let (i, s) = choose|i: nat, s: Seq<char>|
                    i < last && is_block_suffix(s) && below[low].0 == #[trigger] block_path(i, s);
                lemma_suffix_dot(s);
                lemma_block_path_injective(i, s, last, t);
            }
        }
    }
}

/// No two layers share a path, so no two layers share parameters.
pub proof fn law_layer_paths_are_distinct(cfg: Config, a: int, b: int)
    requires
        0 <= a < cfg.all_layers().len(),
        0 <= b < cfg.all_layers().len(),
        a != b,
    ensures
        cfg.all_layers()[a].0 != cfg.all_layers()[b].0,
{
    let n = cfg.n_layer as nat;
    let below = cfg.layers_below(n);
    lemma_paths_below(cfg, n);
    reveal_strlit("tok_emb");
    reveal_strlit("pos_emb");
    reveal_strlit("ln_f");
    reveal_strlit("head");
    assert("tok_emb"@[0] == 't');
    assert("pos_emb"@[0] == 'p');
    assert("ln_f"@[0] == 'l');
    assert("head"@[0] == 'h');
    assert forall|c: int| 0 <= c < below.len() implies (#[trigger] below[c]).0 != "ln_f"@
        && below[c].0 != "head"@ by {
        assert(is_path_below(below[c].0, n));
        if below[c].0 != "tok_emb"@ && below[c].0 != "pos_emb"@ {
            let (i, s) = choose|i: nat, s: Seq<char>|
                i < n && is_block_suffix(s) && below[c].0 == #[trigger] block_path(i, s);
            lemma_other_paths(i, s);
        }
    }
    if a < below.len() && b < below.len() {
        assert(below[a].0 != below[b].0);
    }
}

} // verus!
