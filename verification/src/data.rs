//! The training corpus: how it is split and how it is sharded across workers.
use crate::tokenizer::{decoded, CharTokenizer};
use vstd::arithmetic::div_mod::{
    lemma_div_is_ordered, lemma_div_multiples_vanish, lemma_fundamental_div_mod,
};
use vstd::prelude::*;

verus! {

/// How the training corpus is divided across workers. The held-out validation
/// set is unaffected by this choice: only training data is sharded.
#[derive(Debug, Clone, Copy, PartialEq, Eq, Structural)]
pub enum DataShardingMode {
    /// Every worker samples from the entire training corpus; workers differ only
    /// by their random streams.
    Iid,
    /// The training corpus is cut into `world_size` contiguous chunks and each
    /// worker samples exclusively from its own chunk.
    NonIidContiguous,
}

/// Where the chunk of `rank` begins, and the one before it ends, when `num_tokens` tokens
/// are cut into `world_size` chunks.
pub open spec fn boundary(rank: int, world_size: int, num_tokens: int) -> int {
    rank * num_tokens / world_size
}

impl DataShardingMode {
    /// The first token of the shard of `rank`.
    pub open spec fn shard_start(self, rank: int, world_size: int, num_tokens: int) -> int {
        match self {
            DataShardingMode::Iid => 0,
            DataShardingMode::NonIidContiguous => boundary(rank, world_size, num_tokens),
        }
    }

    /// The token behind the shard of `rank`.
    pub open spec fn shard_end(self, rank: int, world_size: int, num_tokens: int) -> int {
        match self {
            DataShardingMode::Iid => num_tokens,
            DataShardingMode::NonIidContiguous => boundary(rank + 1, world_size, num_tokens),
        }
    }

    /// The half-open token range `[start, end)` of a `num_tokens`-long training
    /// corpus assigned to `rank` of `world_size`.
    ///
    /// IID gives every rank the whole corpus. Otherwise the floor boundaries tile
    /// `[0, num_tokens)` with no gaps or overlap.
    pub fn shard(self, rank: usize, world_size: usize, num_tokens: usize) -> (shard: Shard)
        requires
            rank < world_size,
        ensures
            shard.start == self.shard_start(rank as int, world_size as int, num_tokens as int),
            shard.end == self.shard_end(rank as int, world_size as int, num_tokens as int),
            shard.start <= shard.end <= num_tokens,
    {
        match self {
            DataShardingMode::Iid => Shard { start: 0, end: num_tokens },
            DataShardingMode::NonIidContiguous => {
                proof {
                    lemma_boundaries(rank as int, world_size as int, num_tokens as int);
                    assert(rank as int * num_tokens as int <= u128::MAX) by (nonlinear_arith)
                        requires
                            rank <= u64::MAX,
                            num_tokens <= u64::MAX,
                    ;
                    assert((rank + 1) * num_tokens as int <= u128::MAX) by (nonlinear_arith)
                        requires
                            rank < u64::MAX,
                            num_tokens <= u64::MAX,
                    ;
                }
                let start = rank as u128 * num_tokens as u128 / world_size as u128;
                let end = (rank as u128 + 1) * num_tokens as u128 / world_size as u128;
                Shard { start: start as usize, end: end as usize }
            },
        }
    }

    /// How the mode is written on a command line.
    pub open spec fn spelling(self) -> Seq<char> {
        match self {
            DataShardingMode::Iid => "iid"@,
            DataShardingMode::NonIidContiguous => "non-iid-contiguous"@,
        }
    }

    /// The mode as it is written on a command line.
    pub fn to_string(&self) -> (text: String)
        ensures
            text@ == self.spelling(),
    {
        match self {
            DataShardingMode::Iid => "iid".to_owned(),
            DataShardingMode::NonIidContiguous => "non-iid-contiguous".to_owned(),
        }
    }
}

impl std::str::FromStr for DataShardingMode {
    type Err = String;

    /// Mirrors [`DataShardingMode::to_string`], so the spelling round-trips.
    fn from_str(s: &str) -> (mode: Result<DataShardingMode, String>)
        ensures
            mode matches Ok(m) ==> s@ == m.spelling(),
            mode matches Err(e) ==> s@ != DataShardingMode::Iid.spelling() && s@
                != DataShardingMode::NonIidContiguous.spelling() && e@
                == "unknown sharding mode '"@ + s@ + "' (expected: iid, non-iid-contiguous)"@,
    {
        let text = s.to_owned();
        if text == "iid".to_owned() {
            Ok(DataShardingMode::Iid)
        } else if text == "non-iid-contiguous".to_owned() {
            Ok(DataShardingMode::NonIidContiguous)
        } else {
            let mut message = "unknown sharding mode '".to_owned();
            message.append(s);
            message.append("' (expected: iid, non-iid-contiguous)");
            Err(message)
        }
    }
}

/// The boundaries of one chunk lie in order within the corpus.
proof fn lemma_boundaries(rank: int, world_size: int, num_tokens: int)
    requires
        0 <= rank < world_size,
        0 <= num_tokens,
    ensures
        0 <= boundary(rank, world_size, num_tokens) <= boundary(rank + 1, world_size, num_tokens)
            <= num_tokens,
{
    lemma_boundary_order(rank, rank + 1, world_size, num_tokens);
    lemma_boundary_order(0, rank, world_size, num_tokens);
    lemma_boundary_order(rank + 1, world_size, world_size, num_tokens);
    lemma_outer_boundaries(world_size, num_tokens);
}

/// Boundaries do not fall with the rank.
proof fn lemma_boundary_order(low: int, high: int, world_size: int, num_tokens: int)
    requires
        low <= high,
        0 < world_size,
        0 <= num_tokens,
    ensures
        boundary(low, world_size, num_tokens) <= boundary(high, world_size, num_tokens),
{
    assert(low * num_tokens <= high * num_tokens) by (nonlinear_arith)
        requires
            low <= high,
            0 <= num_tokens,
    ;
    lemma_div_is_ordered(low * num_tokens, high * num_tokens, world_size);
}

/// The first chunk begins with the corpus and the last one ends with it.
proof fn lemma_outer_boundaries(world_size: int, num_tokens: int)
    requires
        0 < world_size,
    ensures
        boundary(0, world_size, num_tokens) == 0,
        boundary(world_size, world_size, num_tokens) == num_tokens,
{
    assert(0 * num_tokens == 0) by (nonlinear_arith);
    lemma_div_multiples_vanish(num_tokens, world_size);
    assert(world_size * num_tokens == num_tokens * world_size) by (nonlinear_arith);
}

/// A worker's half-open `[start, end)` slice of the training corpus.
#[derive(Debug, Clone, Copy)]
pub struct Shard {
    pub start: usize,
    pub end: usize,
}

/// Newlines flattened to spaces.
pub open spec fn flattened(text: Seq<char>) -> Seq<char> {
    text.map_values(|c: char| if c == '\n' { ' ' } else { c })
}

impl Shard {
    /// The number of tokens.
    pub fn len(&self) -> (n: usize)
        requires
            self.start <= self.end,
        ensures
            n == self.end - self.start,
    {
        self.end - self.start
    }

    /// Whether there are no tokens.
    pub fn is_empty(&self) -> (b: bool)
        ensures
            b == (self.start == self.end),
    {
        self.start == self.end
    }

    /// Where a preview of at most `max_chars` characters ends.
    pub open spec fn preview_end(self, max_chars: usize) -> int {
        if self.start + max_chars <= self.end {
            self.start + max_chars
        } else {
            self.end as int
        }
    }

    /// The first `max_chars` characters of this shard, decoded and with newlines
    /// flattened to spaces: a one-line startup sanity check that workers really
    /// do see different text.
    pub fn preview(&self, tokens: &[u32], tokenizer: &CharTokenizer, max_chars: usize) -> (text:
        String)
        requires
            tokenizer.wf(),
            self.start + max_chars <= usize::MAX,
            self.start <= self.preview_end(max_chars) <= tokens@.len(),
        ensures
            text@ == flattened(
                decoded(
                    tokenizer.vocab(),
                    tokens@.subrange(self.start as int, self.preview_end(max_chars)),
                ),
            ),
    {
        let mut end = self.start + max_chars;
        if self.end < end {
            end = self.end;
        }
        let decoded_text = tokenizer.decode(&tokens[self.start..end]);
        let mut text = String::new();
        for c in it: decoded_text.as_str().chars()
            invariant
                it.seq() == decoded_text@,
                text@ == flattened(it.seq().take(it.index() as int)),
        {
            proof {
                assert(it.seq().take(it.index() + 1) =~= it.seq().take(it.index() as int).push(c));
            }
            if c == '\n' {
                text.push(' ');
            } else {
                text.push(c);
            }
            assert(text@ =~= flattened(it.seq().take(it.index() + 1)));
        }
        assert(decoded_text@.take(decoded_text@.len() as int) =~= decoded_text@);
        text
    }
}

/// Split a token stream into a training prefix and a validation suffix of `val_len`
/// tokens. Every node splits the same corpus the same way.
pub fn train_val_split(tokens: Vec<u32>, val_len: usize) -> (parts: (Vec<u32>, Vec<u32>))
    requires
        val_len <= tokens@.len(),
    ensures
        parts.0@ == tokens@.subrange(0, tokens@.len() - val_len),
        parts.1@ == tokens@.subrange(tokens@.len() - val_len, tokens@.len() as int),
{
    let split = tokens.len() - val_len;
    let mut train = tokens;
    let val = train.split_off(split);
    (train, val)
}

/// The spelling tells the modes apart, so what [`DataShardingMode::to_string`] writes is
/// read back as the same mode.
pub proof fn law_spelling_determines_mode(a: DataShardingMode, b: DataShardingMode)
    requires
        a.spelling() == b.spelling(),
    ensures
        a == b,
{
    reveal_strlit("iid");
    reveal_strlit("non-iid-contiguous");
    assert("iid"@.len() != "non-iid-contiguous"@.len());
}

/// The chunks tile the corpus: the first begins at 0, each begins where the one before it
/// ends, and the last ends at `num_tokens`.
pub proof fn law_chunks_tile_the_corpus(rank: int, world_size: int, num_tokens: int)
    requires
        0 <= rank < world_size,
        0 <= num_tokens,
    ensures
        DataShardingMode::NonIidContiguous.shard_start(0, world_size, num_tokens) == 0,
        DataShardingMode::NonIidContiguous.shard_end(world_size - 1, world_size, num_tokens)
            == num_tokens,
        rank + 1 < world_size ==> DataShardingMode::NonIidContiguous.shard_end(
            rank,
            world_size,
            num_tokens,
        ) == DataShardingMode::NonIidContiguous.shard_start(rank + 1, world_size, num_tokens),
{
    lemma_outer_boundaries(world_size, num_tokens);
}

/// The shard of `rank` holds `token`.
pub open spec fn holds(rank: int, world_size: int, num_tokens: int, token: int) -> bool {
    DataShardingMode::NonIidContiguous.shard_start(rank, world_size, num_tokens) <= token
        < DataShardingMode::NonIidContiguous.shard_end(rank, world_size, num_tokens)
}

/// Every token of the corpus is in the chunk of exactly one worker.
pub proof fn law_each_token_in_one_chunk(world_size: int, num_tokens: int, token: int)
    requires
        0 < world_size,
        0 <= token < num_tokens,
    ensures
        exists|rank: int|
            0 <= rank < world_size && #[trigger] holds(rank, world_size, num_tokens, token),
        forall|a: int, b: int|
            0 <= a < world_size && 0 <= b < world_size && #[trigger] holds(
                a,
                world_size,
                num_tokens,
                token,
            ) && #[trigger] holds(b, world_size, num_tokens, token) ==> a == b,
{
    lemma_outer_boundaries(world_size, num_tokens);
    lemma_some_chunk_holds(world_size, world_size, num_tokens, token);
    assert forall|a: int, b: int|
        0 <= a < world_size && 0 <= b < world_size && #[trigger] holds(
            a,
            world_size,
            num_tokens,
            token,
        ) && #[trigger] holds(b, world_size, num_tokens, token) implies a == b by {
        if a < b {
            lemma_boundary_order(a + 1, b, world_size, num_tokens);
        }
        if b < a {
            lemma_boundary_order(b + 1, a, world_size, num_tokens);
        }
    }
}

/// A token below the `ranks`-th boundary is in one of the first `ranks` chunks.
proof fn lemma_some_chunk_holds(ranks: int, world_size: int, num_tokens: int, token: int)
    requires
        0 <= ranks <= world_size,
        0 < world_size,
        0 <= token < boundary(ranks, world_size, num_tokens),
    ensures
        exists|rank: int| 0 <= rank < ranks && #[trigger] holds(rank, world_size, num_tokens, token),
    decreases ranks,
{
    lemma_outer_boundaries(world_size, num_tokens);
    if token < boundary(ranks - 1, world_size, num_tokens) {
        if ranks > 1 {
            lemma_some_chunk_holds(ranks - 1, world_size, num_tokens, token);
            let rank = choose|rank: int|
                0 <= rank < ranks - 1 && #[trigger] holds(rank, world_size, num_tokens, token);
            assert(holds(rank, world_size, num_tokens, token));
        }
    } else {
        assert(holds(ranks - 1, world_size, num_tokens, token));
    }
}

/// The size of the chunk of `rank`.
pub open spec fn chunk_size(rank: int, world_size: int, num_tokens: int) -> int {
    DataShardingMode::NonIidContiguous.shard_end(rank, world_size, num_tokens)
        - DataShardingMode::NonIidContiguous.shard_start(rank, world_size, num_tokens)
}

/// The chunks are balanced: no two sizes differ by more than one. The remainder goes to
/// later chunks: no chunk is smaller than the first or larger than the last.
pub proof fn law_chunks_are_balanced(a: int, b: int, world_size: int, num_tokens: int)
    requires
        0 <= a < world_size,
        0 <= b < world_size,
        0 <= num_tokens,
    ensures
        -1 <= chunk_size(a, world_size, num_tokens) - chunk_size(b, world_size, num_tokens) <= 1,
        chunk_size(0, world_size, num_tokens) <= chunk_size(a, world_size, num_tokens),
        chunk_size(a, world_size, num_tokens) <= chunk_size(world_size - 1, world_size, num_tokens),
{
    lemma_chunk_size(a, world_size, num_tokens);
    lemma_chunk_size(b, world_size, num_tokens);
    lemma_outer_boundaries(world_size, num_tokens);
    assert(boundary(1, world_size, num_tokens) == num_tokens / world_size) by {
        assert(1 * num_tokens == num_tokens) by (nonlinear_arith);
    }
    // The last chunk is the smallest number of tokens that is at least an even share.
    let share = num_tokens / world_size;
    let rest = num_tokens % world_size;
    lemma_fundamental_div_mod(num_tokens, world_size);
    lemma_chunk_size(world_size - 1, world_size, num_tokens);
    if rest > 0 {
        let before_last = boundary(world_size - 1, world_size, num_tokens);
        lemma_fundamental_div_mod((world_size - 1) * num_tokens, world_size);
        assert(before_last <= num_tokens - share - 1) by (nonlinear_arith)
            requires
                (world_size - 1) * num_tokens == world_size * before_last + ((world_size - 1)
                    * num_tokens) % world_size,
                0 <= ((world_size - 1) * num_tokens) % world_size,
                num_tokens == world_size * share + rest,
                0 < rest < world_size,
                0 < world_size,
        ;
    } else {
        assert(a * num_tokens == (a * share) * world_size) by (nonlinear_arith)
            requires
                num_tokens == world_size * share,
        ;
        assert((a + 1) * num_tokens == ((a + 1) * share) * world_size) by (nonlinear_arith)
            requires
                num_tokens == world_size * share,
        ;
        lemma_div_multiples_vanish(a * share, world_size);
        lemma_div_multiples_vanish((a + 1) * share, world_size);
        assert(world_size * (a * share) == (a * share) * world_size) by (nonlinear_arith);
        assert(world_size * ((a + 1) * share) == ((a + 1) * share) * world_size) by (nonlinear_arith);
        assert((a + 1) * share == a * share + share) by (nonlinear_arith);
    }
}

/// A chunk holds an even share of the corpus, rounded down or up.
proof fn lemma_chunk_size(rank: int, world_size: int, num_tokens: int)
    requires
        0 <= rank < world_size,
        0 <= num_tokens,
    ensures
        num_tokens / world_size <= chunk_size(rank, world_size, num_tokens) <= num_tokens
            / world_size + 1,
{
    let share = num_tokens / world_size;
    let rest = num_tokens % world_size;
    let start = boundary(rank, world_size, num_tokens);
    let end = boundary(rank + 1, world_size, num_tokens);
    lemma_fundamental_div_mod(num_tokens, world_size);
    lemma_fundamental_div_mod(rank * num_tokens, world_size);
    lemma_fundamental_div_mod((rank + 1) * num_tokens, world_size);
    let low = (rank * num_tokens) % world_size;
    let high = ((rank + 1) * num_tokens) % world_size;
    assert((rank + 1) * num_tokens == rank * num_tokens + num_tokens) by (nonlinear_arith);
    assert(share <= end - start <= share + 1) by (nonlinear_arith)
        requires
            world_size * end + high == world_size * start + low + world_size * share + rest,
            0 <= low < world_size,
            0 <= high < world_size,
            0 <= rest < world_size,
            0 < world_size,
    ;
}

/// Independent sampling: every worker has the whole corpus, whatever its rank and however
/// many workers there are.
pub proof fn law_iid_workers_share_the_corpus(rank: int, world_size: int, num_tokens: int)
    ensures
        DataShardingMode::Iid.shard_start(rank, world_size, num_tokens) == 0,
        DataShardingMode::Iid.shard_end(rank, world_size, num_tokens) == num_tokens,
{
}

/// A chunk begins at the last token that is no further into the corpus than its rank is into
/// the workers, and it ends likewise for the next rank.
pub proof fn law_chunks_begin_at_even_shares(rank: int, world_size: int, num_tokens: int)
    requires
        0 <= rank < world_size,
        0 <= num_tokens,
    ensures
        ({
            let start = DataShardingMode::NonIidContiguous.shard_start(rank, world_size, num_tokens);
            let end = DataShardingMode::NonIidContiguous.shard_end(rank, world_size, num_tokens);
            &&& start * world_size <= rank * num_tokens < (start + 1) * world_size
            &&& end * world_size <= (rank + 1) * num_tokens < (end + 1) * world_size
        }),
{
    let start = boundary(rank, world_size, num_tokens);
    let end = boundary(rank + 1, world_size, num_tokens);
    let low = (rank * num_tokens) % world_size;
    let high = ((rank + 1) * num_tokens) % world_size;
    lemma_fundamental_div_mod(rank * num_tokens, world_size);
    lemma_fundamental_div_mod((rank + 1) * num_tokens, world_size);
    assert(start * world_size == world_size * start && (start + 1) * world_size == world_size
        * start + world_size) by (nonlinear_arith);
    assert(end * world_size == world_size * end && (end + 1) * world_size == world_size * end
        + world_size) by (nonlinear_arith);
}

/// The modes are spelled the way they are written on a command line.
pub proof fn law_modes_are_spelled(mode: DataShardingMode)
    ensures
        mode is Iid <==> mode.spelling() == "iid"@,
        mode is NonIidContiguous <==> mode.spelling() == "non-iid-contiguous"@,
{
    reveal_strlit("iid");
    reveal_strlit("non-iid-contiguous");
    assert("iid"@.len() != "non-iid-contiguous"@.len());
}

/// A preview is one line: every line break has become a space, and nothing else is changed,
/// added or left out.
pub proof fn law_previews_are_one_line(text: Seq<char>, i: int)
    requires
        0 <= i < text.len(),
    ensures
        flattened(text).len() == text.len(),
        flattened(text)[i] != '\n',
        text[i] != '\n' ==> flattened(text)[i] == text[i],
        text[i] == '\n' ==> flattened(text)[i] == ' ',
{
}

/// A preview shows the first characters of the shard: as many as were asked for, or all of a
/// shard that has no more.
pub proof fn law_previews_show_the_beginning(shard: Shard, max_chars: usize)
    requires
        shard.start <= shard.end,
    ensures
        shard.preview_end(max_chars) - shard.start <= max_chars,
        shard.preview_end(max_chars) <= shard.end,
        shard.preview_end(max_chars) - shard.start == max_chars || shard.preview_end(max_chars)
            == shard.end,
{
}

} // verus!
