use candle_core::{DType, Device, Tensor};
use diloco::params::{allreduce_bytes_per_worker, deserialize, serialize, ParamsError};
use diloco::ParamMap;

fn sample() -> ParamMap {
    let mut params = ParamMap::new();
    params.insert(
        "w".to_string(),
        Tensor::from_vec(vec![1f32, -2.5, f32::INFINITY, 0.0], (2, 2), &Device::Cpu).unwrap(),
    );
    params.insert("b".to_string(), Tensor::new(3f64, &Device::Cpu).unwrap());
    params
}

#[test]
fn parameters_round_trip() {
    let params = sample();
    let back = deserialize(&serialize(&params).unwrap()).unwrap();
    assert_eq!(back.len(), 2);
    let w = back.get(&"w".to_string()).unwrap();
    assert_eq!(w.dims(), &[2, 2]);
    assert_eq!(
        w.to_vec2::<f32>().unwrap(),
        vec![vec![1f32, -2.5], vec![f32::INFINITY, 0.0]]
    );
    let b = back.get(&"b".to_string()).unwrap();
    assert_eq!(b.dtype(), DType::F64);
    assert_eq!(b.to_scalar::<f64>().unwrap(), 3.0);
    assert!(back.get(&"c".to_string()).is_none());
}

#[test]
fn order_of_insertion_does_not_change_the_bytes() {
    let params = sample();
    let mut other = ParamMap::new();
    other.insert("b".to_string(), params.get(&"b".to_string()).unwrap().clone());
    other.insert("w".to_string(), params.get(&"w".to_string()).unwrap().clone());
    assert_eq!(serialize(&params).unwrap(), serialize(&other).unwrap());
}

#[test]
fn payload_is_the_safetensors_layout() {
    let mut params = ParamMap::new();
    params.insert("x".to_string(), Tensor::new(&[1f32], &Device::Cpu).unwrap());
    let header = br#"{"x":{"dtype":"F32","shape":[1],"data_offsets":[0,4]}}"#;
    let padded = header.len().div_ceil(8) * 8;
    let mut expected = (padded as u64).to_le_bytes().to_vec();
    expected.extend_from_slice(header);
    expected.resize(8 + padded, b' ');
    expected.extend_from_slice(&1f32.to_le_bytes());
    assert_eq!(serialize(&params).unwrap(), expected);
}

#[test]
fn allreduce_moves_the_payload_twice() {
    let params = sample();
    let payload = serialize(&params).unwrap().len();
    assert_eq!(allreduce_bytes_per_worker(&params).unwrap(), 2 * payload);
}

#[test]
fn bytes_that_are_no_archive_are_refused() {
    assert!(matches!(deserialize(b"not an archive"), Err(ParamsError::Tensor(_))));
    assert!(matches!(deserialize(&[]), Err(ParamsError::Tensor(_))));
    let mut bytes = serialize(&sample()).unwrap();
    bytes.pop();
    assert!(deserialize(&bytes).is_err());
}

#[test]
fn reserved_name_does_not_round_trip() {
    let mut params = ParamMap::new();
    params.insert("__metadata__".to_string(), Tensor::new(&[1f32], &Device::Cpu).unwrap());
    let bytes = serialize(&params).unwrap();
    assert!(deserialize(&bytes).is_err());
}

#[test]
fn oversized_header_is_refused() {
    let mut params = ParamMap::new();
    params.insert("n".repeat(100_000_001), Tensor::new(&[1f32], &Device::Cpu).unwrap());
    assert!(matches!(serialize(&params), Err(ParamsError::Archive(_))));
    assert!(allreduce_bytes_per_worker(&params).is_err());
}

#[test]
fn insert_replaces_under_the_same_name() {
    let mut params = sample();
    params.insert("w".to_string(), Tensor::new(&[9f32], &Device::Cpu).unwrap());
    assert_eq!(params.len(), 2);
    assert_eq!(params.name_at(0), "w");
    assert_eq!(params.tensor_at(0).to_vec1::<f32>().unwrap(), vec![9f32]);
    assert_eq!(params.position(&"b".to_string()), Some(1));
}

#[test]
fn full_precision_is_told_from_the_rest() {
    let mut params = sample();
    assert!(params.full_precision());
    params.insert("ids".to_string(), Tensor::new(&[1u32], &Device::Cpu).unwrap());
    assert!(!params.full_precision());
    let half = params.get(&"w".to_string()).unwrap().to_dtype(DType::F16).unwrap();
    let mut other = ParamMap::new();
    other.insert("h".to_string(), half);
    assert!(!other.full_precision());
}

fn archive(header: &str, data: &[u8]) -> Vec<u8> {
    let mut bytes = (header.len() as u64).to_le_bytes().to_vec();
    bytes.extend_from_slice(header.as_bytes());
    bytes.extend_from_slice(data);
    bytes
}

#[test]
fn strides_that_cannot_be_counted_are_refused() {
    let one = 1u64 << 40;
    let header = format!(
        "{{\"w\":{{\"dtype\":\"F32\",\"shape\":[0,{one},{one}],\"data_offsets\":[0,0]}}}}"
    );
    assert!(matches!(deserialize(&archive(&header, &[])), Err(ParamsError::Oversized)));
    let header = format!("{{\"w\":{{\"dtype\":\"F32\",\"shape\":[0,{one}],\"data_offsets\":[0,0]}}}}");
    assert_eq!(deserialize(&archive(&header, &[])).unwrap().len(), 1);
}

#[test]
fn a_length_that_cannot_be_counted_is_refused() {
    let each = (1u64 << 61) - 1;
    let entries: Vec<String> = (0..8u64)
        .map(|i| {
            let (start, end) = (i * each, (i + 1) * each);
            format!("\"w{i}\":{{\"dtype\":\"U8\",\"shape\":[{each}],\"data_offsets\":[{start},{end}]}}")
        })
        .collect();
    let header = format!("{{{}}}", entries.join(","));
    assert!(matches!(deserialize(&archive(&header, &[])), Err(ParamsError::Oversized)));
}

#[test]
fn a_broken_header_is_no_archive() {
    for bytes in [vec![], vec![1, 2, 3], archive("not json", &[]), vec![255; 16]] {
        assert!(matches!(deserialize(&bytes), Err(ParamsError::Tensor(_))));
    }
    let short = "{\"w\":{\"dtype\":\"F32\",\"shape\":[2],\"data_offsets\":[0,8]}}";
    assert!(matches!(deserialize(&archive(short, &[0; 4])), Err(ParamsError::Tensor(_))));
    assert_eq!(deserialize(&archive(short, &[0; 8])).unwrap().len(), 1);
}

#[test]
fn the_cost_of_an_event_depends_on_shapes_only() {
    let params = |x: f32, n: usize| {
        let mut params = ParamMap::new();
        params.insert("w".to_string(), Tensor::full(x, (n, 3), &Device::Cpu).unwrap());
        params
    };
    let cost = |p: &ParamMap| allreduce_bytes_per_worker(p).unwrap();
    assert_eq!(cost(&params(0.0, 5)), cost(&params(-1.5e30, 5)));
    assert_eq!(cost(&params(1.0, 5)), 2 * serialize(&params(1.0, 5)).unwrap().len());
    assert_ne!(cost(&params(1.0, 5)), cost(&params(1.0, 6)));
}
