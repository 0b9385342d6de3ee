use diloco::{train_val_split, CharTokenizer, DataShardingMode, Dataset, Shard};

#[test]
fn iid_gives_every_worker_the_whole_corpus() {
    for rank in 0..4 {
        let s = DataShardingMode::Iid.shard(rank, 4, 100);
        assert_eq!((s.start, s.end), (0, 100));
    }
}

#[test]
fn non_iid_chunks_tile_the_corpus_without_gaps() {
    let (n, len) = (3usize, 100usize); // doesn't divide evenly
    let shards: Vec<Shard> = (0..n)
        .map(|r| DataShardingMode::NonIidContiguous.shard(r, n, len))
        .collect();

    // Boundaries meet exactly: starts at 0, ends at len, no gaps or overlap.
    assert_eq!(shards[0].start, 0);
    assert_eq!(shards[n - 1].end, len);
    for pair in shards.windows(2) {
        assert_eq!(pair[0].end, pair[1].start);
    }

    // Every token is covered once, and chunk sizes are balanced to within one.
    let sizes: Vec<usize> = shards.iter().map(Shard::len).collect();
    assert_eq!(sizes.iter().sum::<usize>(), len);
    assert!(sizes.iter().max().unwrap() - sizes.iter().min().unwrap() <= 1);
}

#[test]
fn from_shard_rejects_a_chunk_too_small_for_a_window() {
    let tokens: Vec<u32> = (0..10).collect();
    let shard = Shard { start: 0, end: 4 };
    assert!(Dataset::from_shard(&tokens, shard, 8).is_err());
}

#[test]
fn mode_string_round_trips() {
    for mode in [DataShardingMode::Iid, DataShardingMode::NonIidContiguous] {
        assert_eq!(mode.to_string().parse::<DataShardingMode>().unwrap(), mode);
    }
    assert!("bogus".parse::<DataShardingMode>().is_err());
}

#[test]
fn unknown_mode_is_named_in_the_error() {
    assert_eq!(
        "bogus".parse::<DataShardingMode>(),
        Err("unknown sharding mode 'bogus' (expected: iid, non-iid-contiguous)".to_string())
    );
    assert_eq!(DataShardingMode::Iid.to_string(), "iid");
    assert_eq!(DataShardingMode::NonIidContiguous.to_string(), "non-iid-contiguous");
    assert!("".parse::<DataShardingMode>().is_err());
    assert!("IID".parse::<DataShardingMode>().is_err());
}

#[test]
fn chunk_boundaries_are_floors() {
    let shards: Vec<(usize, usize)> = (0..3)
        .map(|r| DataShardingMode::NonIidContiguous.shard(r, 3, 100))
        .map(|s| (s.start, s.end))
        .collect();
    assert_eq!(shards, vec![(0, 33), (33, 66), (66, 100)]);
    let uneven: Vec<usize> = (0..4)
        .map(|r| DataShardingMode::NonIidContiguous.shard(r, 4, 6).len())
        .collect();
    assert_eq!(uneven, vec![1, 2, 1, 2]);
}

#[test]
fn each_token_is_in_one_chunk() {
    for token in 0..17 {
        let holders = (0..5)
            .map(|r| DataShardingMode::NonIidContiguous.shard(r, 5, 17))
            .filter(|s| s.start <= token && token < s.end)
            .count();
        assert_eq!(holders, 1);
    }
}

#[test]
fn more_workers_than_tokens_leaves_empty_chunks() {
    let shards: Vec<Shard> = (0..4)
        .map(|r| DataShardingMode::NonIidContiguous.shard(r, 4, 2))
        .collect();
    let empty: Vec<bool> = shards.iter().map(Shard::is_empty).collect();
    assert_eq!(empty, vec![true, false, true, false]);
}

#[test]
fn huge_corpora_do_not_overflow() {
    let s = DataShardingMode::NonIidContiguous.shard(1, 2, usize::MAX);
    assert_eq!((s.start, s.end), (usize::MAX / 2, usize::MAX));
}

#[test]
fn preview_is_one_line_of_the_shard() {
    let text = "ab\ncd\nef";
    let tokenizer = CharTokenizer::from_text(text);
    let tokens = tokenizer.encode(text);
    let shard = Shard { start: 1, end: 6 };
    assert_eq!(shard.preview(&tokens, &tokenizer, 50), "b cd ");
    assert_eq!(shard.preview(&tokens, &tokenizer, 3), "b c");
    assert_eq!(shard.preview(&tokens, &tokenizer, 0), "");
}

#[test]
fn split_holds_out_the_tail() {
    let tokens: Vec<u32> = (0..10).collect();
    assert_eq!(train_val_split(tokens.clone(), 3), ((0..7).collect(), vec![7, 8, 9]));
    assert_eq!(train_val_split(tokens.clone(), 0), (tokens, vec![]));
}
