//! The training data of one worker, and the random batches drawn from it.
use crate::data::Shard;
use crate::sampler::{draw, Sampler};
use crate::text::{decimal, push_decimal};
use crate::windows::{fit, is_batch, window_batch};
use candle_core::Tensor;
use vstd::prelude::*;

verus! {

/// Why a worker's shard cannot be trained on.
#[derive(Debug, Clone, Copy, PartialEq, Eq, Structural)]
pub struct ShardTooSmall {
    pub start: usize,
    pub end: usize,
    pub block_size: usize,
}

impl ShardTooSmall {
    /// What the user is told.
    pub open spec fn text(self) -> Seq<char> {
        "shard ["@ + decimal(self.start as nat) + ", "@ + decimal(self.end as nat) + ") has "@
            + decimal((self.end - self.start) as nat) + " tokens, fewer than the "@ + decimal(
            (self.block_size + 2) as nat,
        ) + " needed for one training window (block_size "@ + decimal(self.block_size as nat)
            + " + 1 target + 1); use fewer workers, a larger corpus, or --data-sharding iid"@
    }

    /// Tell the user what is wrong and what to do about it.
    pub fn message(&self) -> (text: String)
        requires
            self.start <= self.end,
            self.block_size + 2 <= usize::MAX,
        ensures
            text@ == self.text(),
    {
        let mut text = "shard [".to_owned();
        push_decimal(&mut text, self.start as u64);
        text.append(", ");
        push_decimal(&mut text, self.end as u64);
        text.append(") has ");
        push_decimal(&mut text, (self.end - self.start) as u64);
        text.append(" tokens, fewer than the ");
        push_decimal(&mut text, (self.block_size + 2) as u64);
        text.append(" needed for one training window (block_size ");
        push_decimal(&mut text, self.block_size as u64);
        text.append(
            " + 1 target + 1); use fewer workers, a larger corpus, or --data-sharding iid",
        );
        text
    }
}

/// Holds a corpus as a flat sequence of token ids and serves random contiguous windows
/// for next-token prediction.
pub struct Dataset {
    tokens: Vec<u32>,
    block_size: usize,
}

impl Dataset {
    pub closed spec fn tokens(self) -> Seq<u32> {
        self.tokens@
    }

    pub closed spec fn block_size(self) -> usize {
        self.block_size
    }

    /// The corpus is longer than a window and its target.
    pub open spec fn wf(self) -> bool {
        self.tokens().len() > self.block_size() + 1
    }

    /// A corpus must be longer than `block_size + 1`.
    pub fn new(tokens: Vec<u32>, block_size: usize) -> (dataset: Dataset)
        requires
            tokens@.len() > block_size + 1,
        ensures
            dataset.wf(),
            dataset.tokens() == tokens@,
            dataset.block_size() == block_size,
    {
        Dataset { tokens, block_size }
    }

    /// Build the dataset for one worker's `shard` of `train_tokens`. Fails when the shard
    /// cannot hold even a single training window, of which the typical cause is too many
    /// workers for the corpus.
    pub fn from_shard(train_tokens: &[u32], shard: Shard, block_size: usize) -> (dataset: Result<
        Dataset,
        ShardTooSmall,
    >)
        requires
            shard.start <= shard.end,
            block_size + 2 <= usize::MAX,
            shard.end - shard.start >= block_size + 2 ==> shard.end <= train_tokens@.len(),
        ensures
            dataset is Ok <==> shard.end - shard.start >= block_size + 2,
            dataset matches Ok(d) ==> {
                &&& d.wf()
                &&& d.tokens() == train_tokens@.subrange(shard.start as int, shard.end as int)
                &&& d.block_size() == block_size
            },
            dataset matches Err(e) ==> e.start == shard.start && e.end == shard.end && e.block_size
                == block_size,
    {
        if shard.len() < block_size + 2 {
            return Err(ShardTooSmall { start: shard.start, end: shard.end, block_size });
        }
        let tokens = vstd::slice::slice_to_vec(&train_tokens[shard.start..shard.end]);
        Ok(Dataset::new(tokens, block_size))
    }

    /// The number of tokens.
    pub fn len(&self) -> (n: usize)
        ensures
            n == self.tokens().len(),
    {
        self.tokens.len()
    }

    /// Whether there are no tokens.
    pub fn is_empty(&self) -> (b: bool)
        ensures
            b == (self.tokens().len() == 0),
    {
        self.tokens.len() == 0
    }

    /// The windows at `starts`, as inputs and targets of shape `(starts.len(), block_size)`.
    pub fn batch_at(&self, starts: &[usize]) -> (batch: Result<(Tensor, Tensor), candle_core::Error>)
        requires
            fit(self.tokens(), starts@, self.block_size() as int),
        ensures
            batch matches Ok(b) && is_batch(
                b.0,
                b.1,
                self.tokens(),
                starts@,
                self.block_size() as int,
            ),
    {
        window_batch(self.tokens.as_slice(), starts, self.block_size)
    }

    /// The last place at which a window can begin.
    pub open spec fn last_start(self) -> int {
        self.tokens().len() - self.block_size() - 1
    }

    /// Sample a batch of `(inputs, targets)`, each of shape `(batch_size, block_size)`, from
    /// windows that begin at random places: one number is drawn for each row, up to the last
    /// place at which a window can begin, and nothing else. `targets` is `inputs` shifted one
    /// position to the right.
    pub fn batch(&self, batch_size: usize, sampler: &mut Sampler) -> (batch: Result<
        (Tensor, Tensor),
        candle_core::Error,
    >)
        requires
            self.wf(),
            batch_size * self.block_size() <= usize::MAX,
        ensures
            final(sampler).seed() == old(sampler).seed(),
            batch matches Ok(b) && exists|starts: Seq<usize>|
                starts.len() == batch_size && #[trigger] fit(
                    self.tokens(),
                    starts,
                    self.block_size() as int,
                ) && is_batch(b.0, b.1, self.tokens(), starts, self.block_size() as int)
                    && final(sampler).record() == old(sampler).record() + starts.map_values(
                    |n: usize| (self.last_start() as usize, n),
                ),
    {
        let max_start = self.tokens.len() - self.block_size - 1;
        let mut starts: Vec<usize> = Vec::new();
        while starts.len() < batch_size
            invariant
                self.wf(),
                starts@.len() <= batch_size,
                fit(self.tokens(), starts@, self.block_size() as int),
                max_start == self.last_start(),
                sampler.seed() == old(sampler).seed(),
                sampler.record() == old(sampler).record() + starts@.map_values(
                    |n: usize| (self.last_start() as usize, n),
                ),
            decreases batch_size - starts@.len(),
        {
            let ghost before = starts@;
            starts.push(draw(sampler, max_start));
            assert(starts@.map_values(|n: usize| (self.last_start() as usize, n))
                =~= before.map_values(|n: usize| (self.last_start() as usize, n)).push(
                (max_start, starts@.last()),
            ));
        }
        self.batch_at(starts.as_slice())
    }
}

/// A window can begin at every place from which it and its last target lie within the corpus,
/// and at no other: the last of these places is the largest number that a batch asks for.
pub proof fn law_windows_begin_wherever_they_fit(dataset: Dataset, start: usize)
    ensures
        start <= dataset.last_start() <==> start + dataset.block_size() + 1
            <= dataset.tokens().len(),
        start <= dataset.last_start() <==> fit(
            dataset.tokens(),
            seq![start],
            dataset.block_size() as int,
        ),
{
    let one = seq![start];
    if fit(dataset.tokens(), one, dataset.block_size() as int) {
        assert(one[0] + dataset.block_size() < dataset.tokens().len());
    }
}

/// The user is told which tokens the shard holds, how many there are, and how many would have
/// been needed.
pub proof fn law_message_names_the_shard(e: ShardTooSmall)
    requires
        e.start <= e.end,
    ensures
        exists|rest: Seq<char>|
            e.text() == #[trigger] ("shard ["@ + decimal(e.start as nat) + ", "@ + decimal(
                e.end as nat,
            ) + ") has "@ + decimal((e.end - e.start) as nat) + " tokens"@ + rest),
        exists|before: Seq<char>, rest: Seq<char>|
            e.text() == #[trigger] (before + "fewer than the "@ + decimal(
                (e.block_size + 2) as nat,
            ) + " needed"@ + rest),
{
    reveal_strlit(" tokens, fewer than the ");
    reveal_strlit(" tokens");
    reveal_strlit("fewer than the ");
    reveal_strlit(" needed for one training window (block_size ");
    reveal_strlit(" needed");
    let text = e.text();
    let middle = " tokens, fewer than the "@;
    let needed = " needed for one training window (block_size "@;
    let start = "shard ["@ + decimal(e.start as nat) + ", "@ + decimal(e.end as nat) + ") has "@
        + decimal((e.end - e.start) as nat);
    let need = decimal((e.block_size + 2) as nat);
    assert(middle.subrange(0, 7) =~= " tokens"@);
    assert(middle.subrange(9, 24) =~= "fewer than the "@);
    assert(needed.subrange(0, 7) =~= " needed"@);
    let rest = text.skip((start.len() + 7) as int);
    assert(text =~= start + " tokens"@ + rest);
    let before = text.take((start.len() + 9) as int);
    let tail = text.skip((start.len() + 24 + need.len() + 7) as int);
    assert(text =~= before + "fewer than the "@ + need + " needed"@ + tail);
}

} // verus!
