use diloco::Evaluation;

fn starts(len: u32, block: usize, batch: usize, max: usize) -> (Vec<Vec<u32>>, usize) {
    let tokens: Vec<u32> = (0..len).collect();
    let mut pass = Evaluation::new(tokens.len(), block, batch, max).unwrap();
    let mut out = Vec::new();
    while let Some(b) = pass.next_batch(&tokens).unwrap() {
        let xs = b.inputs.to_vec2::<u32>().unwrap();
        let ys = b.targets.to_vec2::<u32>().unwrap();
        assert_eq!(b.tokens, xs.len() * block);
        for (x, y) in xs.iter().zip(ys.iter()) {
            assert_eq!(x[..], tokens[x[0] as usize..x[0] as usize + block]);
            assert_eq!(y[..], tokens[x[0] as usize + 1..x[0] as usize + 1 + block]);
        }
        out.push(xs.iter().map(|x| x[0]).collect());
    }
    (out, pass.evaluated_tokens())
}

#[test]
fn windows_are_back_to_back() {
    assert_eq!(starts(21, 4, 2, 0), (vec![vec![0, 4], vec![8, 12], vec![16]], 20));
}

#[test]
fn last_window_needs_room_for_its_target() {
    assert_eq!(starts(20, 4, 8, 0), (vec![vec![0, 4, 8, 12]], 16));
    assert_eq!(starts(5, 4, 8, 0), (vec![vec![0]], 4));
}

#[test]
fn batches_can_be_capped() {
    assert_eq!(starts(100, 4, 3, 2), (vec![vec![0, 4, 8], vec![12, 16, 20]], 24));
    assert_eq!(starts(21, 4, 3, 100), (vec![vec![0, 4, 8], vec![12, 16]], 20));
}

#[test]
fn no_batch_size_under_a_cap_evaluates_nothing() {
    assert_eq!(starts(21, 4, 0, 1), (vec![], 0));
}

#[test]
fn too_short_a_set_has_no_window() {
    assert!(Evaluation::new(4, 4, 2, 0).is_none());
    assert!(Evaluation::new(0, 0, 0, 0).is_none());
    assert!(Evaluation::new(5, 4, 2, 0).is_some());
}

#[test]
fn every_pass_is_the_same() {
    assert_eq!(starts(77, 5, 3, 0), starts(77, 5, 3, 0));
}
