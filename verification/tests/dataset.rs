use diloco::dataset::ShardTooSmall;
use diloco::windows::gather_windows;
use diloco::{DataShardingMode, Dataset, Sampler, Shard};
use rand::{rngs::StdRng, Rng, SeedableRng};

fn rows(t: &candle_core::Tensor) -> Vec<Vec<u32>> {
    t.to_vec2::<u32>().unwrap()
}

#[test]
fn from_shard_takes_the_shard() {
    let tokens: Vec<u32> = (100..120).collect();
    let shard = DataShardingMode::NonIidContiguous.shard(1, 2, tokens.len());
    let dataset = Dataset::from_shard(&tokens, shard, 8).unwrap();
    assert_eq!(dataset.len(), 10);
    assert!(!dataset.is_empty());
    let (inputs, targets) = dataset.batch_at(&[0, 1]).unwrap();
    assert_eq!(rows(&inputs), vec![(110..118).collect::<Vec<u32>>(), (111..119).collect()]);
    assert_eq!(rows(&targets), vec![(111..119).collect::<Vec<u32>>(), (112..120).collect()]);
}

#[test]
fn from_shard_needs_room_for_a_window_and_its_target() {
    let tokens: Vec<u32> = (0..20).collect();
    assert!(Dataset::from_shard(&tokens, Shard { start: 3, end: 13 }, 8).is_ok());
    let refused = Dataset::from_shard(&tokens, Shard { start: 3, end: 12 }, 8).err().unwrap();
    assert_eq!(refused, ShardTooSmall { start: 3, end: 12, block_size: 8 });
    assert_eq!(
        refused.message(),
        "shard [3, 12) has 9 tokens, fewer than the 10 needed for one training window \
         (block_size 8 + 1 target + 1); use fewer workers, a larger corpus, or --data-sharding iid"
    );
}

#[test]
fn windows_are_gathered_with_their_targets() {
    let tokens: Vec<u32> = (0..10).map(|n| n * n).collect();
    let (xs, ys) = gather_windows(&tokens, &[2, 0, 6], 3);
    assert_eq!(xs, vec![4, 9, 16, 0, 1, 4, 36, 49, 64]);
    assert_eq!(ys, vec![9, 16, 25, 1, 4, 9, 49, 64, 81]);
}

#[test]
fn batches_are_windows_of_the_corpus() {
    let tokens: Vec<u32> = (0..50).map(|n| n * 7).collect();
    let dataset = Dataset::new(tokens.clone(), 5);
    let mut sampler = Sampler::new(0, 0);
    for _ in 0..20 {
        let (inputs, targets) = dataset.batch(4, &mut sampler).unwrap();
        assert_eq!(inputs.dims(), &[4, 5]);
        assert_eq!(targets.dims(), &[4, 5]);
        for (x, y) in rows(&inputs).iter().zip(rows(&targets).iter()) {
            let start = (x[0] / 7) as usize;
            assert!(start <= tokens.len() - 5 - 1);
            assert_eq!(x[..], tokens[start..start + 5]);
            assert_eq!(y[..], tokens[start + 1..start + 6]);
        }
    }
}

#[test]
fn shortest_corpus_has_two_windows() {
    let dataset = Dataset::new(vec![1, 2, 3, 4], 2);
    let mut sampler = Sampler::new(1, 0);
    let mut seen = Vec::new();
    for _ in 0..64 {
        let (inputs, _) = dataset.batch(1, &mut sampler).unwrap();
        let row = rows(&inputs).remove(0);
        if !seen.contains(&row) {
            seen.push(row);
        }
    }
    seen.sort();
    assert_eq!(seen, vec![vec![1, 2], vec![2, 3]]);
}

#[test]
fn same_seed_and_rank_draw_the_same_batches() {
    let dataset = Dataset::new((0..1000).collect(), 4);
    let draw = |seed: u64, rank: u64| {
        let mut sampler = Sampler::new(seed, rank);
        let (inputs, _) = dataset.batch(8, &mut sampler).unwrap();
        rows(&inputs)
    };
    assert_eq!(draw(3, 1), draw(3, 1));
    assert_ne!(draw(3, 1), draw(3, 2));
    assert_ne!(draw(3, 1), draw(4, 1));
}

#[test]
fn streams_are_seeded_by_repeat_and_rank() {
    let dataset = Dataset::new((0..1000).collect(), 4);
    let mut sampler = Sampler::new(3, 2);
    let (inputs, _) = dataset.batch(1, &mut sampler).unwrap();
    let mut rng = StdRng::seed_from_u64(3 * 10_000 + 1234 + 2);
    let start: usize = rng.gen_range(0..=1000 - 4 - 1);
    assert_eq!(rows(&inputs)[0][0], start as u32);
}
