//! Distributed low-communication training (DiLoCo): the model, the data, the outer optimizer
//! and the protocol of a run, without the network and the files around them.
//!
//! Workers train independently for K steps each, exchange one set of parameters per round,
//! and go on from the parameters that the coordinator's outer optimizer makes of them.
pub mod anatomy;
pub mod baseline;
pub mod causality;
pub mod coordinator;
pub mod data;
pub mod dataset;
pub mod eval;
pub mod exact;
pub mod history;
pub mod layers;
pub mod metrics;
pub mod model;
pub mod outer;
pub mod params;
pub mod sampler;
pub mod tensor;
pub mod text;
pub mod tokenizer;
pub mod transformer;
pub mod windows;
pub mod worker;

pub use coordinator::Coordinator;
pub use data::{train_val_split, DataShardingMode, Shard};
pub use dataset::Dataset;
pub use eval::{eval_loss, Evaluation};
pub use model::Config;
pub use outer::OuterOptimizer;
pub use params::ParamMap;
pub use sampler::Sampler;
pub use tokenizer::CharTokenizer;
pub use transformer::GptModel;
