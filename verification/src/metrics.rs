//! The metrics that a DiLoCo run and the synchronous baseline both log, one CSV row per
//! checkpoint, and the compute and communication totals that make the two comparable.
use crate::text::{decimal, lemma_decimal_digits, push_decimal};
use vstd::prelude::*;

verus! {

/// The first line of a metrics file, without its line break.
pub fn csv_header() -> (line: String)
    ensures
        line@ == "round,total_samples,wall_clock_s,comm_bytes,val_loss,train_loss"@,
{
    "round,total_samples,wall_clock_s,comm_bytes,val_loss,train_loss".to_owned()
}

/// The values of a row between commas.
pub open spec fn row_text(
    round: nat,
    total_samples: nat,
    wall_clock_s: Seq<char>,
    comm_bytes: nat,
    val_loss: Seq<char>,
    train_loss: Seq<char>,
) -> Seq<char> {
    decimal(round) + ","@ + decimal(total_samples) + ","@ + wall_clock_s + ","@ + decimal(comm_bytes)
        + ","@ + val_loss + ","@ + train_loss
}

/// One row per logical checkpoint, without its line break. `wall_clock_s`, `val_loss` and
/// `train_loss` come as they are to be written.
pub fn csv_row(
    round: u64,
    totals: Totals,
    wall_clock_s: &str,
    val_loss: &str,
    train_loss: &str,
) -> (line: String)
    ensures
        line@ == row_text(
            round as nat,
            totals.samples as nat,
            wall_clock_s@,
            totals.comm_bytes as nat,
            val_loss@,
            train_loss@,
        ),
{
    let mut line = String::new();
    push_decimal(&mut line, round);
    line.append(",");
    push_decimal(&mut line, totals.samples);
    line.append(",");
    line.append(wall_clock_s);
    line.append(",");
    push_decimal(&mut line, totals.comm_bytes);
    line.append(",");
    line.append(val_loss);
    line.append(",");
    line.append(train_loss);
    assert(line@ =~= row_text(
        round as nat,
        totals.samples as nat,
        wall_clock_s@,
        totals.comm_bytes as nat,
        val_loss@,
        train_loss@,
    ));
    line
}

/// Cumulative compute and communication of all workers together.
#[derive(Debug, Clone, Copy, PartialEq, Eq, Structural)]
pub struct Totals {
    /// Sequences processed: the compute axis.
    pub samples: u64,
    /// Bytes communicated.
    pub comm_bytes: u64,
}

/// What every worker does alike in a run.
#[derive(Debug, Clone, Copy, PartialEq, Eq, Structural)]
pub struct Workload {
    /// Inner optimizer steps per round.
    pub inner_steps: u64,
    pub world_size: u64,
    /// Sequences per worker and step.
    pub batch_size: u64,
    /// Bytes that a worker moves per all-reduce event.
    pub per_worker_bytes: u64,
}

impl Workload {
    /// Sequences that all workers of a DiLoCo run have processed after `round` rounds.
    pub open spec fn diloco_samples(self, round: int) -> int {
        round * self.inner_steps * self.world_size * self.batch_size
    }

    /// Bytes that all workers of a DiLoCo run have moved after `round` rounds, with one
    /// all-reduce event in each.
    pub open spec fn diloco_bytes(self, round: int) -> int {
        round * self.world_size * self.per_worker_bytes
    }

    /// Sequences that the synchronous baseline has processed after `step` steps.
    pub open spec fn sync_samples(self, step: int) -> int {
        step * self.world_size * self.batch_size
    }

    /// Bytes that the workers of the synchronous baseline have moved after `step` steps, with
    /// one all-reduce event in each.
    pub open spec fn sync_bytes(self, step: int) -> int {
        step * self.world_size * self.per_worker_bytes
    }

    /// Before any training or communication.
    pub fn at_start() -> (totals: Totals)
        ensures
            totals.samples == 0,
            totals.comm_bytes == 0,
    {
        Totals { samples: 0, comm_bytes: 0 }
    }

    /// The totals of a DiLoCo run after `round` rounds: in each, every worker takes
    /// `inner_steps` steps and performs one all-reduce event.
    pub fn after_rounds(&self, round: u64) -> (totals: Totals)
        requires
            round * self.inner_steps * self.world_size * self.batch_size <= u64::MAX,
            round * self.inner_steps * self.world_size <= u64::MAX,
            round * self.inner_steps <= u64::MAX,
            round * self.world_size * self.per_worker_bytes <= u64::MAX,
            round * self.world_size <= u64::MAX,
        ensures
            totals.samples == self.diloco_samples(round as int),
            totals.comm_bytes == self.diloco_bytes(round as int),
    {
        Totals {
            samples: round * self.inner_steps * self.world_size * self.batch_size,
            comm_bytes: round * self.world_size * self.per_worker_bytes,
        }
    }

    /// The totals of the synchronous baseline after `step` steps, each of which is an
    /// all-reduce event.
    pub fn after_steps(&self, step: u64) -> (totals: Totals)
        requires
            step * self.world_size * self.batch_size <= u64::MAX,
            step * self.world_size * self.per_worker_bytes <= u64::MAX,
            step * self.world_size <= u64::MAX,
        ensures
            totals.samples == self.sync_samples(step as int),
            totals.comm_bytes == self.sync_bytes(step as int),
    {
        Totals {
            samples: step * self.world_size * self.batch_size,
            comm_bytes: step * self.world_size * self.per_worker_bytes,
        }
    }
}

/// Matched compute: the baseline runs `inner_steps` steps for each DiLoCo round. Both have
/// then processed the same number of sequences, while the baseline has communicated exactly
/// `inner_steps` times as much.
pub proof fn law_communication_ratio(work: Workload, round: int)
    ensures
        work.sync_samples(round * work.inner_steps) == work.diloco_samples(round),
        work.sync_bytes(round * work.inner_steps) == work.inner_steps * work.diloco_bytes(round),
{
    let k = work.inner_steps as int;
    let n = work.world_size as int;
    let p = work.per_worker_bytes as int;
    assert((round * k) * n * p == k * (round * n * p)) by (nonlinear_arith);
}

/// With the number of inner steps over the whole run held constant, the compute does not
/// depend on how they are divided into rounds, while communication falls in proportion to
/// the number of rounds.
pub proof fn law_sweep_holds_compute(work: Workload, other: Workload, rounds: int, other_rounds: int)
    requires
        rounds * work.inner_steps == other_rounds * other.inner_steps,
        work.world_size == other.world_size,
        work.batch_size == other.batch_size,
        work.per_worker_bytes == other.per_worker_bytes,
    ensures
        work.diloco_samples(rounds) == other.diloco_samples(other_rounds),
        work.diloco_bytes(rounds) * other_rounds == other.diloco_bytes(other_rounds) * rounds,
{
    let n = work.world_size as int;
    let p = work.per_worker_bytes as int;
    assert((rounds * n * p) * other_rounds == (other_rounds * n * p) * rounds) by (nonlinear_arith);
}

/// Compute and communication add up: they start from nothing, every DiLoCo round adds the
/// batches of all inner steps of all workers and one all-reduce event of each worker, and every
/// step of the baseline adds one batch and one all-reduce event of each worker.
pub proof fn law_totals_add_up(work: Workload, done: int)
    ensures
        work.diloco_samples(0) == 0,
        work.diloco_bytes(0) == 0,
        work.sync_samples(0) == 0,
        work.sync_bytes(0) == 0,
        work.diloco_samples(done + 1) == work.diloco_samples(done) + work.inner_steps * (
        work.world_size * work.batch_size),
        work.diloco_bytes(done + 1) == work.diloco_bytes(done) + work.world_size
            * work.per_worker_bytes,
        work.sync_samples(done + 1) == work.sync_samples(done) + work.world_size * work.batch_size,
        work.sync_bytes(done + 1) == work.sync_bytes(done) + work.world_size
            * work.per_worker_bytes,
{
    let k = work.inner_steps as int;
    let n = work.world_size as int;
    let b = work.batch_size as int;
    let p = work.per_worker_bytes as int;
    assert(0 * k * n * b == 0 && 0 * n * p == 0 && 0 * n * b == 0) by (nonlinear_arith);
    assert((done + 1) * k * n * b == done * k * n * b + k * (n * b)) by (nonlinear_arith);
    assert((done + 1) * n * p == done * n * p + n * p) by (nonlinear_arith);
    assert((done + 1) * n * b == done * n * b + n * b) by (nonlinear_arith);
}

/// The fields of a line, between its commas.
pub open spec fn fields(line: Seq<char>) -> Seq<Seq<char>>
    decreases line.len(),
{
    if line.len() == 0 {
        seq![Seq::empty()]
    } else {
        let rest = fields(line.drop_last());
        if line.last() == ',' {
            rest.push(Seq::empty())
        } else {
            rest.update(rest.len() - 1, rest.last().push(line.last()))
        }
    }
}

/// Text without commas lengthens the last field.
proof fn lemma_last_field(line: Seq<char>, text: Seq<char>)
    requires
        !text.contains(','),
    ensures
        fields(line).len() > 0,
        fields(line + text) == fields(line).update(
            fields(line).len() - 1,
            fields(line).last() + text,
        ),
    decreases text.len(),
{
    lemma_some_field(line);
    if text.len() == 0 {
        assert(line + text =~= line);
        assert(fields(line).last() + text =~= fields(line).last());
        assert(fields(line).update(fields(line).len() - 1, fields(line).last()) =~= fields(line));
    } else {
        let less = text.drop_last();
        assert forall|i: int| 0 <= i < less.len() implies less[i] != ',' by {
            assert(text.contains(text[i]));
        }
        assert(text.contains(text[text.len() - 1]));
        lemma_last_field(line, less);
        assert((line + text).drop_last() =~= line + less);
        assert(text =~= less.push(text.last()));
        assert((fields(line).last() + less).push(text.last()) =~= fields(line).last() + text);
        assert(fields(line + text) =~= fields(line).update(
            fields(line).len() - 1,
            fields(line).last() + text,
        ));
    }
}

/// Every line has a field.
proof fn lemma_some_field(line: Seq<char>)
    ensures
        fields(line).len() > 0,
    decreases line.len(),
{
    if line.len() > 0 {
        lemma_some_field(line.drop_last());
    }
}

/// A comma and text without commas make up one more field.
proof fn lemma_next_field(line: Seq<char>, text: Seq<char>)
    requires
        !text.contains(','),
    ensures
        fields(line + ","@ + text) == fields(line).push(text),
{
    reveal_strlit(",");
    let longer = line + ","@;
    assert(longer.drop_last() =~= line);
    assert(fields(longer) == fields(line).push(Seq::empty()));
    lemma_last_field(longer, text);
    assert(Seq::<char>::empty() + text =~= text);
    assert(fields(longer + text) =~= fields(line).push(text));
}

/// A number in decimal has no comma.
proof fn lemma_no_comma(n: nat)
    ensures
        !decimal(n).contains(','),
{
    lemma_decimal_digits(n);
}

/// A row can be read back: its fields are those that the header names, in that order, each in
/// its own column.
pub proof fn law_rows_have_the_columns_of_the_header(
    round: nat,
    total_samples: nat,
    wall_clock_s: Seq<char>,
    comm_bytes: nat,
    val_loss: Seq<char>,
    train_loss: Seq<char>,
)
    requires
        !wall_clock_s.contains(','),
        !val_loss.contains(','),
        !train_loss.contains(','),
    ensures
        fields("round,total_samples,wall_clock_s,comm_bytes,val_loss,train_loss"@) == seq![
            "round"@,
            "total_samples"@,
            "wall_clock_s"@,
            "comm_bytes"@,
            "val_loss"@,
            "train_loss"@,
        ],
        fields(
            row_text(round, total_samples, wall_clock_s, comm_bytes, val_loss, train_loss),
        ) == seq![
            decimal(round),
            decimal(total_samples),
            wall_clock_s,
            decimal(comm_bytes),
            val_loss,
            train_loss,
        ],
{
    lemma_no_comma(round);
    lemma_no_comma(total_samples);
    lemma_no_comma(comm_bytes);
    lemma_fields_of_six(
        decimal(round),
        decimal(total_samples),
        wall_clock_s,
        decimal(comm_bytes),
        val_loss,
        train_loss,
    );
    reveal_strlit("round,total_samples,wall_clock_s,comm_bytes,val_loss,train_loss");
    reveal_strlit("round");
    reveal_strlit("total_samples");
    reveal_strlit("wall_clock_s");
    reveal_strlit("comm_bytes");
    reveal_strlit("val_loss");
    reveal_strlit("train_loss");
    reveal_strlit(",");
    lemma_fields_of_six(
        "round"@,
        "total_samples"@,
        "wall_clock_s"@,
        "comm_bytes"@,
        "val_loss"@,
        "train_loss"@,
    );
    assert("round"@ + ","@ + "total_samples"@ + ","@ + "wall_clock_s"@ + ","@ + "comm_bytes"@ + ","@
        + "val_loss"@ + ","@ + "train_loss"@
        =~= "round,total_samples,wall_clock_s,comm_bytes,val_loss,train_loss"@);
}

/// Six texts without commas, between commas, are the fields of the line.
proof fn lemma_fields_of_six(
    a: Seq<char>,
    b: Seq<char>,
    c: Seq<char>,
    d: Seq<char>,
    e: Seq<char>,
    f: Seq<char>,
)
    requires
        !a.contains(','),
        !b.contains(','),
        !c.contains(','),
        !d.contains(','),
        !e.contains(','),
        !f.contains(','),
    ensures
        fields(a + ","@ + b + ","@ + c + ","@ + d + ","@ + e + ","@ + f) == seq![a, b, c, d, e, f],
{
    let none = Seq::<char>::empty();
    lemma_last_field(none, a);
    assert(none + a =~= a);
    assert(fields(a) =~= seq![a]);
    lemma_next_field(a, b);
    lemma_next_field(a + ","@ + b, c);
    lemma_next_field(a + ","@ + b + ","@ + c, d);
    lemma_next_field(a + ","@ + b + ","@ + c + ","@ + d, e);
    lemma_next_field(a + ","@ + b + ","@ + c + ","@ + d + ","@ + e, f);
    assert(seq![a].push(b).push(c).push(d).push(e).push(f) =~= seq![a, b, c, d, e, f]);
}

} // verus!
