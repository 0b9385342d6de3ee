use diloco::baseline::{checkpoint_round, total_steps};
use diloco::metrics::{csv_header, csv_row, Totals, Workload};
use diloco::model::{qkv_offset, Config, LayerKind};
use diloco::text::push_decimal;
use diloco::worker::{
    after_failed_attempt, writes_metrics, Action, Reply, Retry, Transition, WorkerRun,
    CONNECT_ATTEMPTS, CONNECT_PAUSE_MS,
};

#[test]
fn an_undisturbed_worker_completes_every_round() {
    let (mut run, mut action) = WorkerRun::start(1, 3);
    assert!(!run.missed_rounds());
    let mut completed = Vec::new();
    while action == Action::Train {
        let t = run.advance(Reply::Reduced { next_round: run.round + 1 });
        completed.push(t.completed.unwrap());
        action = t.action;
    }
    assert_eq!(completed, vec![1, 2, 3]);
    assert_eq!(action, Action::Finish);
}

#[test]
fn a_refused_worker_resyncs_and_discards_its_round() {
    let (mut run, _) = WorkerRun::start(2, 5);
    assert!(run.missed_rounds());
    let t = run.advance(Reply::RoundMismatch);
    assert_eq!(t, Transition { completed: None, action: Action::Resync });
    assert_eq!(run.round, 2);
    let t = run.advance(Reply::Resynced { round: 4 });
    assert_eq!(t, Transition { completed: None, action: Action::Train });
    assert_eq!(run.round, 4);
    let t = run.advance(Reply::Resynced { round: 6 });
    assert_eq!(t.action, Action::Finish);
}

#[test]
fn a_failed_request_stops_the_worker() {
    let (mut run, _) = WorkerRun::start(3, 5);
    let t = run.advance(Reply::Failed);
    assert_eq!(t, Transition { completed: None, action: Action::Fail { round: 3 } });
}

#[test]
fn a_run_without_rounds_finishes_at_once() {
    assert_eq!(WorkerRun::start(1, 0).1, Action::Finish);
}

#[test]
fn connecting_is_tried_forty_times() {
    let mut attempts = 1;
    let mut next = after_failed_attempt(1);
    while let Retry::Attempt(n) = next {
        attempts += 1;
        assert_eq!(n, attempts);
        next = after_failed_attempt(n);
    }
    assert_eq!(attempts, 40);
    assert_eq!((CONNECT_ATTEMPTS, CONNECT_PAUSE_MS), (40, 500));
}

#[test]
fn only_rank_zero_writes_metrics() {
    assert!(writes_metrics(0, true));
    assert!(!writes_metrics(0, false));
    assert!(!writes_metrics(1, true));
}

#[test]
fn baseline_checkpoints_line_up_with_rounds() {
    let (rounds, k) = (3, 4);
    let mut logged = Vec::new();
    for step in 1..=total_steps(rounds, k) {
        if let Some(round) = checkpoint_round(step, k) {
            logged.push((step, round));
        }
    }
    assert_eq!(logged, vec![(4, 1), (8, 2), (12, 3)]);
}

#[test]
fn communication_ratio_is_the_number_of_inner_steps() {
    let work = Workload { inner_steps: 50, world_size: 2, batch_size: 16, per_worker_bytes: 1000 };
    let diloco = work.after_rounds(3);
    let sync = work.after_steps(150);
    assert_eq!(diloco, Totals { samples: 4800, comm_bytes: 6000 });
    assert_eq!(sync, Totals { samples: 4800, comm_bytes: 300_000 });
    assert_eq!(sync.comm_bytes, 50 * diloco.comm_bytes);
    assert_eq!(Workload::at_start(), Totals { samples: 0, comm_bytes: 0 });
}

#[test]
fn sweep_holds_compute_constant() {
    let work = Workload { inner_steps: 5, world_size: 4, batch_size: 16, per_worker_bytes: 10 };
    let other = Workload { inner_steps: 25, ..work };
    assert_eq!(work.after_rounds(400).samples, other.after_rounds(80).samples);
    assert_eq!(work.after_rounds(400).comm_bytes, 5 * other.after_rounds(80).comm_bytes);
}

#[test]
fn rows_follow_the_header() {
    assert_eq!(csv_header(), "round,total_samples,wall_clock_s,comm_bytes,val_loss,train_loss");
    let totals = Totals { samples: 1600, comm_bytes: 18_446_744_073_709_551_615 };
    assert_eq!(
        csv_row(7, totals, "1.2500", "2.000000", "NaN"),
        "7,1600,1.2500,18446744073709551615,2.000000,NaN"
    );
}

#[test]
fn decimals_have_no_leading_zeros() {
    for n in [0u64, 7, 10, 409, 1_000_000, u64::MAX] {
        let mut text = "n=".to_string();
        push_decimal(&mut text, n);
        assert_eq!(text, format!("n={n}"));
    }
}

#[test]
fn tiny_config_has_about_400k_parameters() {
    let cfg = Config::tiny(58);
    assert_eq!((cfg.block_size, cfg.n_embd, cfg.n_head, cfg.n_layer), (64, 128, 4, 2));
    assert_eq!(cfg.head_dim(), 32);
    let count: usize = cfg
        .layers()
        .iter()
        .map(|l| match l.kind {
            LayerKind::Embedding { rows, dim } => rows * dim,
            LayerKind::Linear { inputs, outputs } => inputs * outputs + outputs,
            LayerKind::LayerNorm { size } => 2 * size,
        })
        .sum();
    assert_eq!(count, 419_898);
}

#[test]
fn layers_have_their_paths_and_sizes() {
    let cfg = Config { vocab_size: 5, block_size: 7, n_embd: 8, n_head: 2, n_layer: 1 };
    let layers: Vec<(String, LayerKind)> =
        cfg.layers().into_iter().map(|l| (l.path, l.kind)).collect();
    let expected = vec![
        ("tok_emb", LayerKind::Embedding { rows: 5, dim: 8 }),
        ("pos_emb", LayerKind::Embedding { rows: 7, dim: 8 }),
        ("block_0.ln1", LayerKind::LayerNorm { size: 8 }),
        ("block_0.attn.qkv", LayerKind::Linear { inputs: 8, outputs: 24 }),
        ("block_0.attn.proj", LayerKind::Linear { inputs: 8, outputs: 8 }),
        ("block_0.ln2", LayerKind::LayerNorm { size: 8 }),
        ("block_0.mlp.fc", LayerKind::Linear { inputs: 8, outputs: 32 }),
        ("block_0.mlp.proj", LayerKind::Linear { inputs: 32, outputs: 8 }),
        ("ln_f", LayerKind::LayerNorm { size: 8 }),
        ("head", LayerKind::Linear { inputs: 8, outputs: 5 }),
    ];
    let expected: Vec<(String, LayerKind)> =
        expected.into_iter().map(|(p, k)| (p.to_string(), k)).collect();
    assert_eq!(layers, expected);
}

#[test]
fn layer_paths_are_distinct() {
    let mut cfg = Config::tiny(10);
    cfg.n_layer = 12;
    let mut paths: Vec<String> = cfg.layers().into_iter().map(|l| l.path).collect();
    assert_eq!(paths.len(), 2 + 12 * 6 + 2);
    paths.sort();
    paths.dedup();
    assert_eq!(paths.len(), 2 + 12 * 6 + 2);
}

#[test]
fn query_key_and_value_lie_side_by_side() {
    assert_eq!([qkv_offset(0, 128), qkv_offset(1, 128), qkv_offset(2, 128)], [0, 128, 256]);
}
