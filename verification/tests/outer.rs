use candle_core::{DType, Device, Tensor};
use diloco::outer::StepError;
use diloco::{OuterOptimizer, ParamMap};

fn map(entries: &[(&str, &[f32])]) -> ParamMap {
    let mut params = ParamMap::new();
    for (name, values) in entries {
        params.insert(name.to_string(), Tensor::new(*values, &Device::Cpu).unwrap());
    }
    params
}

fn get(params: &ParamMap, name: &str) -> Vec<f32> {
    params.get(&name.to_string()).unwrap().to_vec1::<f32>().unwrap()
}

fn optimizer(global: &ParamMap, lr: f64, mu: f64) -> OuterOptimizer {
    OuterOptimizer::new(global, lr.to_bits(), mu.to_bits()).unwrap()
}

#[test]
fn one_worker_without_momentum_is_adopted() {
    let mut global = map(&[("w", &[4.0, -2.0]), ("b", &[1.0])]);
    let mut outer = optimizer(&global, 1.0, 0.0);
    outer.step(&mut global, &[map(&[("b", &[0.5]), ("w", &[3.0, 8.0])])]).unwrap();
    assert_eq!(get(&global, "w"), vec![3.0, 8.0]);
    assert_eq!(get(&global, "b"), vec![0.5]);
}

#[test]
fn workers_are_averaged() {
    let mut global = map(&[("w", &[0.0, 10.0])]);
    let mut outer = optimizer(&global, 1.0, 0.0);
    let locals = [
        map(&[("w", &[1.0, 2.0])]),
        map(&[("w", &[3.0, 4.0])]),
        map(&[("w", &[5.0, 6.0])]),
        map(&[("w", &[7.0, 4.0])]),
    ];
    outer.step(&mut global, &locals).unwrap();
    assert_eq!(get(&global, "w"), vec![4.0, 4.0]);
}

#[test]
fn nesterov_momentum_accumulates() {
    // delta = theta - mean; m = mu * m + delta; theta = theta - lr * (delta + mu * m)
    let mut global = map(&[("w", &[8.0])]);
    let mut outer = optimizer(&global, 0.5, 0.5);
    outer.step(&mut global, &[map(&[("w", &[4.0])])]).unwrap();
    // delta 4, m 4, update 6, theta 5
    assert_eq!(get(&global, "w"), vec![5.0]);
    outer.step(&mut global, &[map(&[("w", &[3.0])])]).unwrap();
    // delta 2, m 4, update 4, theta 3
    assert_eq!(get(&global, "w"), vec![3.0]);
    outer.step(&mut global, &[map(&[("w", &[3.0])])]).unwrap();
    // delta 0, m 2, update 1, theta 2.5
    assert_eq!(get(&global, "w"), vec![2.5]);
}

#[test]
fn step_matches_the_formula_in_floating_point() {
    let (lr, mu) = (0.7f64, 0.9f64);
    let mut global = map(&[("w", &[0.1, -3.7])]);
    let mut outer = optimizer(&global, lr, mu);
    let a = [0.3f32, 1.9];
    let b = [-0.2f32, 0.4];
    let c = [5.5f32, -7.25];
    outer.step(&mut global, &[map(&[("w", &a)]), map(&[("w", &b)]), map(&[("w", &c)])]).unwrap();
    let expected: Vec<f32> = [0.1f32, -3.7]
        .iter()
        .enumerate()
        .map(|(i, theta)| {
            let mean = (a[i] + b[i] + c[i]) * ((1.0f64 / 3.0) as f32);
            let delta = theta - mean;
            let m = 0.0f32 * (mu as f32) + delta;
            theta - (delta + m * (mu as f32)) * (lr as f32)
        })
        .collect();
    assert_eq!(get(&global, "w"), expected);
}

#[test]
fn a_step_needs_a_worker() {
    let mut global = map(&[("w", &[1.0])]);
    let mut outer = optimizer(&global, 1.0, 0.0);
    assert!(matches!(outer.step(&mut global, &[]), Err(StepError::NoWorkers)));
    assert_eq!(get(&global, "w"), vec![1.0]);
}

#[test]
fn a_missing_parameter_is_reported_with_its_worker() {
    let mut global = map(&[("a", &[1.0]), ("b", &[2.0]), ("c", &[3.0])]);
    let mut outer = optimizer(&global, 1.0, 0.0);
    let full = map(&[("a", &[0.0]), ("b", &[0.0]), ("c", &[0.0])]);
    let partial = map(&[("a", &[0.0]), ("c", &[0.0])]);
    match outer.step(&mut global, &[full, partial]) {
        Err(StepError::MissingParam { worker, name }) => {
            assert_eq!(worker, 1);
            assert_eq!(name, "b");
        }
        _ => panic!("expected a missing parameter"),
    }
    // What stands before the fault has been stepped, the rest has not.
    assert_eq!(get(&global, "a"), vec![0.0]);
    assert_eq!(get(&global, "b"), vec![2.0]);
    assert_eq!(get(&global, "c"), vec![3.0]);
    match outer.step(&mut global, &[map(&[])]) {
        Err(StepError::MissingParam { worker, name }) => {
            assert_eq!((worker, name.as_str()), (0, "a"));
        }
        _ => panic!("expected a missing parameter"),
    }
}

#[test]
fn tensors_that_do_not_fit_are_reported() {
    let mut global = map(&[("w", &[1.0, 2.0])]);
    let mut outer = optimizer(&global, 1.0, 0.0);
    let short = map(&[("w", &[1.0])]);
    assert!(matches!(outer.step(&mut global, &[short]), Err(StepError::Tensor { .. })));
    let fits = map(&[("w", &[1.0, 2.0])]);
    let short = map(&[("w", &[1.0])]);
    assert!(matches!(outer.step(&mut global, &[fits, short]), Err(StepError::Tensor { .. })));
    let mut doubles = ParamMap::new();
    doubles.insert("w".to_string(), Tensor::new(&[1f64, 2.0], &Device::Cpu).unwrap());
    match outer.step(&mut global, &[doubles]) {
        Err(StepError::Tensor { name, .. }) => assert_eq!(name, "w"),
        _ => panic!("expected tensors that do not fit"),
    }
    assert_eq!(get(&global, "w"), vec![1.0, 2.0]);
}

#[test]
fn integers_cannot_be_averaged() {
    let mut global = map(&[("w", &[1.0])]);
    let mut outer = optimizer(&global, 1.0, 0.0);
    let mut ids = ParamMap::new();
    ids.insert("w".to_string(), Tensor::new(&[1u8], &Device::Cpu).unwrap());
    match outer.step(&mut global, &[ids]) {
        Err(StepError::ElementType { name }) => assert_eq!(name, "w"),
        _ => panic!("expected an element type that cannot be averaged"),
    }
}

#[test]
fn parameters_without_elements_are_stepped() {
    let mut global = map(&[("none", &[]), ("w", &[2.0])]);
    let mut outer = optimizer(&global, 1.0, 0.0);
    let mut local = map(&[("w", &[1.0])]);
    let none: [u8; 0] = [];
    local.insert("none".to_string(), Tensor::new(&none, &Device::Cpu).unwrap());
    outer.step(&mut global, &[local]).unwrap();
    assert_eq!(get(&global, "none"), Vec::<f32>::new());
    assert_eq!(get(&global, "w"), vec![1.0]);
}

#[test]
fn double_precision_is_stepped_in_double_precision() {
    let tensor = |x: f64| {
        let mut p = ParamMap::new();
        p.insert("w".to_string(), Tensor::new(&[x], &Device::Cpu).unwrap());
        p
    };
    let mut global = tensor(1.0);
    let mut outer = optimizer(&global, 0.1, 0.0);
    outer.step(&mut global, &[tensor(0.3)]).unwrap();
    let theta = global.get(&"w".to_string()).unwrap().to_vec1::<f64>().unwrap();
    assert_eq!(theta, vec![1.0 - (1.0 - 0.3) * 0.1]);
}

#[test]
fn momentum_has_the_type_of_its_parameter() {
    let mut global = ParamMap::new();
    global.insert("n".to_string(), Tensor::new(&[1i64, 2], &Device::Cpu).unwrap());
    global.insert("u".to_string(), Tensor::new(&[1u8, 2], &Device::Cpu).unwrap());
    let half = Tensor::new(&[1f32], &Device::Cpu).unwrap().to_dtype(DType::F16).unwrap();
    global.insert("h".to_string(), half);
    assert!(OuterOptimizer::new(&global, 1.0f64.to_bits(), 0.9f64.to_bits()).is_ok());
}

#[test]
fn names_that_the_model_lacks_do_not_matter() {
    let step = |locals: &[ParamMap]| {
        let mut global = map(&[("w", &[4.0, -2.0])]);
        let mut outer = optimizer(&global, 0.7, 0.9);
        outer.step(&mut global, locals).unwrap();
        (global.len(), get(&global, "w"))
    };
    let plain = step(&[map(&[("w", &[1.0, 2.0])]), map(&[("w", &[3.0, 5.0])])]);
    let more = step(&[map(&[("x", &[9.0]), ("w", &[1.0, 2.0])]), map(&[("w", &[3.0, 5.0])])]);
    assert_eq!(plain, more);
    let swapped = step(&[map(&[("w", &[3.0, 5.0])]), map(&[("w", &[1.0, 2.0])])]);
    assert_eq!(plain, swapped);
}

#[test]
fn plain_averaging_forgets_the_steps_before() {
    let mut global = map(&[("w", &[8.0, 1.0])]);
    let mut outer = optimizer(&global, 1.0, 0.0);
    outer.step(&mut global, &[map(&[("w", &[-3.0, 64.0])])]).unwrap();
    outer.step(&mut global, &[map(&[("w", &[2.0, 6.0])]), map(&[("w", &[4.0, 2.0])])]).unwrap();
    assert_eq!(get(&global, "w"), vec![3.0, 4.0]);
}

#[test]
fn packed_parameters_have_no_momentum() {
    let mut global = map(&[("w", &[1.0])]);
    let packed = Tensor::from_raw_buffer(&[0, 0], DType::F8E8M0, &[2], &Device::Cpu).unwrap();
    global.insert("p".to_string(), packed);
    assert!(OuterOptimizer::new(&global, 1.0f64.to_bits(), 0.0f64.to_bits()).is_err());
}

#[test]
fn exact_sums_do_not_depend_on_the_order_of_workers() {
    let step = |order: [usize; 3]| {
        let sent = [map(&[("w", &[1.0, -8.0])]), map(&[("w", &[0.5, 3.0])]), map(&[("w", &[4.0, 2.0])])];
        let mut slots: Vec<Option<ParamMap>> = sent.into_iter().map(Some).collect();
        let locals: Vec<ParamMap> = order.iter().map(|i| slots[*i].take().unwrap()).collect();
        let mut global = map(&[("w", &[4.0, -2.0])]);
        let mut outer = optimizer(&global, 0.7, 0.9);
        outer.step(&mut global, &locals).unwrap();
        get(&global, "w")
    };
    let expected = step([0, 1, 2]);
    for order in [[0, 2, 1], [1, 0, 2], [1, 2, 0], [2, 0, 1], [2, 1, 0]] {
        assert_eq!(step(order), expected);
    }
}
