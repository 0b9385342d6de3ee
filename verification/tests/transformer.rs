use candle_core::{DType, Device, Result, Tensor, Var, D};
use candle_nn::ops::softmax_last_dim;
use candle_nn::{Embedding, LayerNorm, Linear, Module, Optimizer, SGD};
use diloco::baseline::mean_of_losses;
use diloco::eval::NOT_A_NUMBER;
use diloco::model::LayerKind;
use diloco::layers::NEGATIVE_INFINITY;
use diloco::tensor::ONE;
use diloco::transformer::{causal_mask, mean_loss, ModelError, EPSILON};
use diloco::{eval_loss, Config, GptModel, ParamMap};

fn small() -> Config {
    Config { vocab_size: 7, block_size: 5, n_embd: 8, n_head: 2, n_layer: 2 }
}

/// Numbers that look random and are the same every time.
fn filled(dims: &[usize], salt: f64) -> Tensor {
    let n: usize = dims.iter().product();
    Tensor::arange(0f32, n as f32, &Device::Cpu)
        .unwrap()
        .affine(0.7311, salt)
        .unwrap()
        .sin()
        .unwrap()
        .reshape(dims)
        .unwrap()
}

fn parameters(cfg: &Config) -> ParamMap {
    let mut params = ParamMap::new();
    for (i, layer) in cfg.layers().into_iter().enumerate() {
        let salt = i as f64;
        let (weight, bias) = match layer.kind {
            LayerKind::Embedding { rows, dim } => (filled(&[rows, dim], salt), None),
            LayerKind::Linear { inputs, outputs } => {
                (filled(&[outputs, inputs], salt), Some(filled(&[outputs], salt + 0.5)))
            }
            LayerKind::LayerNorm { size } => {
                (filled(&[size], salt), Some(filled(&[size], salt + 0.5)))
            }
        };
        params.insert(format!("{}.weight", layer.path), weight);
        if let Some(bias) = bias {
            params.insert(format!("{}.bias", layer.path), bias);
        }
    }
    params
}

fn tensor(params: &ParamMap, name: &str) -> Tensor {
    params.get(&name.to_string()).unwrap().clone()
}

fn linear(params: &ParamMap, path: &str, x: &Tensor) -> Result<Tensor> {
    let weight = tensor(params, &format!("{path}.weight"));
    let bias = tensor(params, &format!("{path}.bias"));
    Linear::new(weight, Some(bias)).forward(x)
}

fn norm(params: &ParamMap, path: &str, x: &Tensor) -> Result<Tensor> {
    let weight = tensor(params, &format!("{path}.weight"));
    let bias = tensor(params, &format!("{path}.bias"));
    LayerNorm::new(weight, bias, 1e-5).forward(x)
}

fn attention(cfg: &Config, params: &ParamMap, path: &str, x: &Tensor) -> Result<Tensor> {
    let (b, t, c) = x.dims3()?;
    let d = c / cfg.n_head;
    let qkv = linear(params, &format!("{path}.qkv"), x)?;
    let split = |start: usize| -> Result<Tensor> {
        qkv.narrow(D::Minus1, start * c, c)?
            .reshape((b, t, cfg.n_head, d))?
            .transpose(1, 2)?
            .contiguous()
    };
    let (q, k, v) = (split(0)?, split(1)?, split(2)?);
    let att = (q.matmul(&k.transpose(D::Minus2, D::Minus1)?)? * (1.0 / (d as f64).sqrt()))?;
    let mask: Vec<f32> = (0..t)
        .flat_map(|i| (0..t).map(move |j| if j > i { f32::NEG_INFINITY } else { 0.0 }))
        .collect();
    let att = softmax_last_dim(&att.broadcast_add(&Tensor::from_vec(mask, (t, t), &Device::Cpu)?)?)?;
    let y = att.matmul(&v)?.transpose(1, 2)?.contiguous()?.reshape((b, t, c))?;
    linear(params, &format!("{path}.proj"), &y)
}

fn expected_logits(cfg: &Config, params: &ParamMap, idx: &Tensor) -> Result<Tensor> {
    let t = idx.dims2()?.1;
    let tok = Embedding::new(tensor(params, "tok_emb.weight"), cfg.n_embd).forward(idx)?;
    let pos_ids = Tensor::arange(0u32, t as u32, &Device::Cpu)?;
    let pos = Embedding::new(tensor(params, "pos_emb.weight"), cfg.n_embd).forward(&pos_ids)?;
    let mut x = tok.broadcast_add(&pos)?;
    for i in 0..cfg.n_layer {
        let normed = norm(params, &format!("block_{i}.ln1"), &x)?;
        x = (&x + attention(cfg, params, &format!("block_{i}.attn"), &normed)?)?;
        let normed = norm(params, &format!("block_{i}.ln2"), &x)?;
        let wide = linear(params, &format!("block_{i}.mlp.fc"), &normed)?.gelu()?;
        x = (&x + linear(params, &format!("block_{i}.mlp.proj"), &wide)?)?;
    }
    linear(params, "head", &norm(params, "ln_f", &x)?)
}

fn ids(rows: &[&[u32]]) -> Tensor {
    let width = rows[0].len();
    let flat: Vec<u32> = rows.concat();
    Tensor::from_vec(flat, (rows.len(), width), &Device::Cpu).unwrap()
}

fn assert_close(a: &Tensor, b: &Tensor) {
    assert_eq!(a.dims(), b.dims());
    let difference = (a - b).unwrap().abs().unwrap().flatten_all().unwrap();
    for d in difference.to_vec1::<f32>().unwrap() {
        assert!(d < 1e-5, "differs by {d}");
    }
}

#[test]
fn tokens_pass_through_every_layer() {
    let cfg = small();
    let params = parameters(&cfg);
    let model = GptModel::new(&cfg, &params).unwrap();
    for idx in [ids(&[&[0, 6, 3, 3, 1]]), ids(&[&[2], &[5], &[4]]), ids(&[&[1, 2, 3], &[6, 0, 6]])] {
        let logits = model.forward(&idx).unwrap();
        let (b, t) = idx.dims2().unwrap();
        assert_eq!(logits.dims(), &[b, t, 7]);
        assert_close(&logits, &expected_logits(&cfg, &params, &idx).unwrap());
    }
}

#[test]
fn tiny_model_gives_logits_over_the_vocabulary() {
    let cfg = Config::tiny(58);
    let params = parameters(&cfg);
    let model = GptModel::new(&cfg, &params).unwrap();
    let idx = ids(&[&[57; 64], &[3; 64]]);
    let logits = model.forward(&idx).unwrap();
    assert_eq!(logits.dims(), &[2, 64, 58]);
}

#[test]
fn later_tokens_do_not_change_earlier_logits() {
    let cfg = small();
    let model = GptModel::new(&cfg, &parameters(&cfg)).unwrap();
    let a = model.forward(&ids(&[&[1, 2, 3, 4, 5]])).unwrap();
    let b = model.forward(&ids(&[&[1, 2, 3, 0, 6]])).unwrap();
    assert_close(&a.narrow(1, 0, 3).unwrap(), &b.narrow(1, 0, 3).unwrap());
    let last = |t: &Tensor| t.narrow(1, 3, 2).unwrap().flatten_all().unwrap().to_vec1::<f32>().unwrap();
    assert_ne!(last(&a), last(&b));
}

#[test]
fn positions_tell_equal_tokens_apart() {
    let cfg = small();
    let model = GptModel::new(&cfg, &parameters(&cfg)).unwrap();
    let logits = model.forward(&ids(&[&[4, 4]])).unwrap().to_vec3::<f32>().unwrap();
    assert_ne!(logits[0][0], logits[0][1]);
}

#[test]
fn a_model_without_blocks_needs_no_heads() {
    let cfg = Config { n_layer: 0, n_head: 3, ..small() };
    let params = parameters(&cfg);
    let model = GptModel::new(&cfg, &params).unwrap();
    let idx = ids(&[&[1, 2]]);
    assert_close(&model.forward(&idx).unwrap(), &expected_logits(&cfg, &params, &idx).unwrap());
}

#[test]
fn heads_have_to_take_up_the_embedding() {
    let cfg = Config { n_head: 3, ..small() };
    let model = GptModel::new(&cfg, &parameters(&cfg)).unwrap();
    assert!(matches!(model.forward(&ids(&[&[1, 2]])), Err(ModelError::Heads)));
}

#[test]
fn token_ids_form_a_matrix() {
    let cfg = small();
    let model = GptModel::new(&cfg, &parameters(&cfg)).unwrap();
    let row = Tensor::new(&[1u32, 2], &Device::Cpu).unwrap();
    assert!(matches!(model.forward(&row), Err(ModelError::Shape)));
    let none = Tensor::zeros((0, 3), DType::U32, &Device::Cpu).unwrap();
    assert!(matches!(model.forward(&none), Err(ModelError::Shape)));
    let empty = Tensor::zeros((2, 0), DType::U32, &Device::Cpu).unwrap();
    assert!(matches!(model.forward(&empty), Err(ModelError::Shape)));
}

#[test]
fn token_ids_lie_in_the_vocabulary() {
    let cfg = small();
    let model = GptModel::new(&cfg, &parameters(&cfg)).unwrap();
    assert!(matches!(model.forward(&ids(&[&[1, 7]])), Err(ModelError::Tensor(_))));
    assert!(model.forward(&ids(&[&[1, 6]])).is_ok());
    assert!(model.forward(&ids(&[&[1, u32::MAX]])).is_ok());
}

#[test]
fn the_first_parameter_that_is_wrong_is_reported() {
    let cfg = small();
    let missing = |e: std::result::Result<GptModel, ModelError>| match e {
        Err(ModelError::Missing { name }) => name,
        _ => panic!("not reported as missing"),
    };
    let unfit = |e: std::result::Result<GptModel, ModelError>| match e {
        Err(ModelError::Unfit { name }) => name,
        _ => panic!("not reported as unfit"),
    };
    assert_eq!(missing(GptModel::new(&cfg, &ParamMap::new())), "tok_emb.weight");

    let mut params = parameters(&cfg);
    params.insert("head.bias".to_string(), filled(&[8], 0.0));
    assert_eq!(unfit(GptModel::new(&cfg, &params)), "head.bias");
    let double = filled(&[16, 8], 0.0).to_dtype(DType::F64).unwrap();
    params.insert("block_1.mlp.fc.weight".to_string(), double);
    assert_eq!(unfit(GptModel::new(&cfg, &params)), "block_1.mlp.fc.weight");

    let deeper = Config { n_layer: 3, ..small() };
    assert_eq!(missing(GptModel::new(&deeper, &parameters(&small()))), "block_2.ln1.weight");
}

#[test]
fn parameters_may_be_stored_in_any_order() {
    let cfg = small();
    let mut params = parameters(&cfg);
    let idx = ids(&[&[1, 2, 3]]);
    let before = GptModel::new(&cfg, &params).unwrap().forward(&idx).unwrap();
    for name in ["tok_emb.weight", "head.weight"] {
        let turned = tensor(&params, name).t().unwrap().contiguous().unwrap().t().unwrap();
        assert!(!turned.is_contiguous());
        params.insert(name.to_string(), turned);
    }
    let after = GptModel::new(&cfg, &params).unwrap().forward(&idx).unwrap();
    assert_close(&before, &after);
}

#[test]
fn mask_hides_the_future() {
    let inf = f32::NEG_INFINITY;
    assert_eq!(
        causal_mask(3).unwrap().to_vec2::<f32>().unwrap(),
        vec![vec![0.0, inf, inf], vec![0.0, 0.0, inf], vec![0.0, 0.0, 0.0]]
    );
    assert_eq!(causal_mask(0).unwrap().dims(), &[0, 0]);
}

#[test]
fn loss_is_the_mean_over_all_positions() {
    let cfg = small();
    let model = GptModel::new(&cfg, &parameters(&cfg)).unwrap();
    let (inputs, targets) = (ids(&[&[1, 2, 3], &[6, 0, 6]]), ids(&[&[2, 3, 4], &[0, 6, 5]]));
    let logits = model.forward(&inputs).unwrap();
    let expected = candle_nn::loss::cross_entropy(
        &logits.reshape((6, 7)).unwrap(),
        &targets.reshape((6,)).unwrap(),
    )
    .unwrap();
    assert_close(&model.loss(&inputs, &targets).unwrap(), &expected);
    assert_close(&mean_loss(&logits, &targets).unwrap(), &expected);
    assert!(matches!(model.loss(&inputs, &ids(&[&[2, 3, 4], &[0, 6, 7]])), Err(ModelError::Tensor(_))));
}

#[test]
fn even_logits_cost_the_logarithm_of_the_vocabulary() {
    let logits = Tensor::zeros((1, 3, 4), DType::F32, &Device::Cpu).unwrap();
    let loss = mean_loss(&logits, &ids(&[&[0, 3, 1]])).unwrap().to_scalar::<f32>().unwrap();
    assert!((loss - 4f32.ln()).abs() < 1e-6);
}

fn batch_mean(model: &GptModel, tokens: &[u32], starts: &[usize], block: usize) -> f32 {
    let xs: Vec<&[u32]> = starts.iter().map(|s| &tokens[*s..*s + block]).collect();
    let ys: Vec<&[u32]> = starts.iter().map(|s| &tokens[*s + 1..*s + 1 + block]).collect();
    model.loss(&ids(&xs), &ids(&ys)).unwrap().to_scalar::<f32>().unwrap()
}

#[test]
fn a_short_final_batch_counts_by_its_tokens() {
    let cfg = small();
    let model = GptModel::new(&cfg, &parameters(&cfg)).unwrap();
    let tokens: Vec<u32> = (0..14u32).map(|i| i * i % 7).collect();
    let full = batch_mean(&model, &tokens, &[0, 4], 4) as f64;
    let short = batch_mean(&model, &tokens, &[8], 4) as f64;
    let expected = ((0.0 + full * 8.0 + short * 4.0) / 12.0) as f32;
    let loss = f32::from_bits(eval_loss(&model, &tokens, 4, 2, 0).unwrap());
    assert!((loss - expected).abs() < 1e-5);
    assert!((loss as f64 - (full + short) / 2.0).abs() > 1e-4);
}

#[test]
fn evaluation_can_be_capped_and_repeated() {
    let cfg = small();
    let model = GptModel::new(&cfg, &parameters(&cfg)).unwrap();
    let tokens: Vec<u32> = (0..40u32).map(|i| i * i % 7).collect();
    let capped = f32::from_bits(eval_loss(&model, &tokens, 4, 2, 1).unwrap());
    assert!((capped - batch_mean(&model, &tokens, &[0, 4], 4)).abs() < 1e-5);
    let whole = eval_loss(&model, &tokens, 4, 2, 0).unwrap();
    assert_eq!(whole, eval_loss(&model, &tokens, 4, 2, 0).unwrap());
    assert_ne!(capped.to_bits(), whole);
}

#[test]
fn nothing_to_evaluate_is_not_a_number() {
    let cfg = small();
    let model = GptModel::new(&cfg, &parameters(&cfg)).unwrap();
    assert_eq!(eval_loss(&model, &[1, 2, 3, 4], 4, 2, 0).unwrap(), NOT_A_NUMBER);
    assert!(f32::from_bits(NOT_A_NUMBER).is_nan());
    assert!(f32::from_bits(eval_loss(&model, &[1; 9], 4, 0, 3).unwrap()).is_nan());
}

#[test]
fn evaluation_reports_what_the_model_reports() {
    let cfg = small();
    let model = GptModel::new(&cfg, &parameters(&cfg)).unwrap();
    assert!(matches!(eval_loss(&model, &[1, 2, 3, 4, 9], 4, 2, 0), Err(ModelError::Tensor(_))));
    // The token that no window reaches is never looked up.
    assert!(eval_loss(&model, &[1, 2, 3, 4, 5, 9], 4, 2, 0).is_ok());
    let odd = Config { n_head: 3, ..small() };
    let model = GptModel::new(&odd, &parameters(&odd)).unwrap();
    assert!(matches!(eval_loss(&model, &[1, 2, 3, 4, 5], 4, 2, 0), Err(ModelError::Heads)));
}

#[test]
fn losses_of_all_workers_are_averaged() {
    let losses: Vec<Tensor> =
        [1.5f32, 2.5, 0.5, 3.5].iter().map(|l| Tensor::new(*l, &Device::Cpu).unwrap()).collect();
    assert_eq!(mean_of_losses(&losses).unwrap().to_scalar::<f32>().unwrap(), 2.0);
    assert_eq!(mean_of_losses(&losses[..1]).unwrap().to_scalar::<f32>().unwrap(), 1.5);
}

#[test]
fn room_is_counted_without_overflow() {
    let cfg = small();
    let model = GptModel::new(&cfg, &parameters(&cfg)).unwrap();
    assert!(model.has_room(16, 5));
    assert!(model.has_room(usize::MAX, 0));
    assert!(model.has_room(0, 5));
    assert!(model.has_room(usize::MAX / 32, 1));
    assert!(!model.has_room(usize::MAX / 32 + 1, 1));
    assert!(!model.has_room(usize::MAX, 5));
    assert!(!model.has_room(1, usize::MAX));
}

#[test]
fn training_on_the_loss_lowers_it() {
    let cfg = small();
    let start = parameters(&cfg);
    let vars: Vec<(String, Var)> = (0..start.len())
        .map(|i| (start.name_at(i).clone(), Var::from_tensor(start.tensor_at(i)).unwrap()))
        .collect();
    let (inputs, targets) = (ids(&[&[1, 2, 3], &[6, 0, 6]]), ids(&[&[2, 3, 4], &[0, 6, 5]]));
    let loss = || {
        let mut params = ParamMap::new();
        for (name, var) in &vars {
            params.insert(name.clone(), var.as_tensor().clone());
        }
        GptModel::new(&cfg, &params).unwrap().loss(&inputs, &targets).unwrap()
    };
    let mut optimizer = SGD::new(vars.iter().map(|(_, var)| var.clone()).collect(), 0.01).unwrap();
    let before = loss();
    optimizer.backward_step(&before).unwrap();
    let (before, after) = (before.to_scalar::<f32>().unwrap(), loss().to_scalar::<f32>().unwrap());
    assert!(after < before, "{after} is not below {before}");
}

#[test]
fn ids_may_be_bytes_or_long() {
    let cfg = small();
    let model = GptModel::new(&cfg, &parameters(&cfg)).unwrap();
    let idx = ids(&[&[1, 2, 6]]);
    let expected = model.forward(&idx).unwrap();
    for dtype in [DType::U8, DType::I64] {
        assert_close(&model.forward(&idx.to_dtype(dtype).unwrap()).unwrap(), &expected);
    }
    let single = idx.to_dtype(DType::F32).unwrap();
    assert!(matches!(model.forward(&single), Err(ModelError::Tensor(_))));
    let negative = Tensor::new(&[[1i64, -1]], &Device::Cpu).unwrap();
    assert!(matches!(model.forward(&negative), Err(ModelError::Tensor(_))));
    let nothing = Tensor::new(&[[1u8, 255]], &Device::Cpu).unwrap();
    assert_close(&model.forward(&nothing).unwrap(), &model.forward(&ids(&[&[1, u32::MAX]])).unwrap());
}

#[test]
fn tokens_past_the_last_window_do_not_count() {
    let cfg = small();
    let model = GptModel::new(&cfg, &parameters(&cfg)).unwrap();
    let tokens: Vec<u32> = (0..23u32).map(|i| i * i % 7).collect();
    let loss = |tokens: &[u32], max| eval_loss(&model, tokens, 4, 2, max).unwrap();
    let mut other = tokens.clone();
    other[22] = 99;
    assert_eq!(loss(&tokens, 0), loss(&other, 0));
    assert_eq!(loss(&tokens, 1), loss(&tokens[..9], 0));
    assert_eq!(loss(&tokens, 3), loss(&tokens, 0));
}

#[test]
fn constants_are_the_numbers_they_stand_for() {
    assert_eq!(f64::from_bits(EPSILON), 1e-5);
    assert_eq!(f32::from_bits(NEGATIVE_INFINITY), f32::NEG_INFINITY);
    assert_eq!(f64::from_bits(ONE), 1.0);
}

#[test]
fn other_sequences_do_not_change_the_logits() {
    let cfg = small();
    let model = GptModel::new(&cfg, &parameters(&cfg)).unwrap();
    let a = model.forward(&ids(&[&[1, 2, 3], &[4, 5, 6]])).unwrap();
    let b = model.forward(&ids(&[&[0, 0, 0], &[4, 5, 6]])).unwrap();
    assert_close(&a.narrow(0, 1, 1).unwrap(), &b.narrow(0, 1, 1).unwrap());
    let longer = model.forward(&ids(&[&[4, 5, 6, 1, 2]])).unwrap();
    assert_close(&a.narrow(0, 1, 1).unwrap(), &longer.narrow(1, 0, 3).unwrap());
}

#[test]
fn a_model_without_blocks_may_have_no_heads_at_all() {
    let cfg = Config { n_layer: 0, n_head: 0, ..small() };
    let params = parameters(&cfg);
    let model = GptModel::new(&cfg, &params).unwrap();
    let idx = ids(&[&[1, 2]]);
    assert!(model.has_room(1, 2));
    assert_close(&model.forward(&idx).unwrap(), &expected_logits(&cfg, &params, &idx).unwrap());
}

#[test]
fn an_empty_vocabulary_can_be_evaluated_on_nothing() {
    let cfg = Config { vocab_size: 0, ..small() };
    let model = GptModel::new(&cfg, &parameters(&cfg)).unwrap();
    assert_eq!(eval_loss(&model, &[], 4, 2, 0).unwrap(), NOT_A_NUMBER);
}

#[test]
fn packed_elements_are_no_ids() {
    let cfg = small();
    let model = GptModel::new(&cfg, &parameters(&cfg)).unwrap();
    let packed = Tensor::from_raw_buffer(&[1, 2], DType::F8E8M0, &[1, 2], &Device::Cpu).unwrap();
    assert!(matches!(model.forward(&packed), Err(ModelError::Tensor(_))));
    let turned = Tensor::from_raw_buffer(&[1, 2, 3, 4], DType::F8E8M0, &[2, 2], &Device::Cpu).unwrap();
    assert!(matches!(model.forward(&turned.t().unwrap()), Err(ModelError::Tensor(_))));
}
