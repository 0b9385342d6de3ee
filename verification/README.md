# diloco

Distributed low-communication training (DiLoCo) of a tiny character-level transformer.
Each worker trains on its own for K steps; then the workers exchange one set of parameters,
and an outer optimizer with Nesterov momentum makes the next global parameters of them.

`src/` is a library verified with Verus. It holds

- `tokenizer`, `data`, `sampler`, `dataset`, `windows`: the vocabulary, the split of the
  corpus, the shards of the workers, and the windows that batches are made of;
- `tensor`, `layers`, `model`, `transformer`: what is said of candle's tensors and
  operations, the shape of the model, and the pass of token ids through its layers;
- `causality`: that the model sees no later tokens;
- `eval`: the held-out loss over fixed windows;
- `params`, `outer`: named parameters, their wire format, and the outer optimizer;
- `coordinator`, `worker`, `history`: the protocol of rounds, from both ends, and what
  holds of whole runs of it;
- `baseline`, `metrics`: the synchronous baseline and the figures that the two runs are
  compared by.

The functions marked `external_body` call candle, safetensors, serde_json, rand or the
standard library; their contracts are taken on trust and say what was taken from those crates.
Floating-point arithmetic on single elements is named, not modelled. Operations whose
rounding depends on the machine are described by relations.

`app/` holds the three programs (`coordinator`, `worker`, `baseline`) around it: arguments,
files, gRPC, and the inner optimizer. `tests/` runs the library on concrete values.

    diloco coordinator --listen 0.0.0.0:7070 --world-size 2
    diloco worker --rank 0 --world-size 2 --coordinator <host>:7070
    diloco worker --rank 1 --world-size 2 --coordinator <host>:7070
    diloco baseline --world-size 2
