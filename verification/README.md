# microgpt

A small character-level GPT whose structure is verified with Verus.

- `src/tokenizer.rs` maps letters to ids (`a`..`z` are 0..25, BOS is 26) and back.
- `src/autograd.rs` is the computation graph: every value is a node recording how it was
  made and which nodes it depends on. `ValueRef::backward` gives the order in which
  backward propagation visits nodes; where no two nodes share an identifier, it is
  proved to visit each node the root depends on exactly once, the root first and every
  node before its children. Identifiers are random version-4 UUIDs, so that they differ
  is likely but not proved.
- `src/model.rs` builds the model's computations (dot products, `linear`, `rmsnorm`,
  `softmax`, attention, the layer blocks) as nodes of the graph; each contract says what
  every output computes, written out as a term over the inputs.
- `src/gpt.rs` is one forward pass as a state machine: the caller evaluates each head's
  attention logits and names their largest, and the pass goes on. Over a model whose
  parameters `Parameters::new` laid out and whose caches are shaped, a pass is proved
  never to fail, as long as the caller names a position among the logits.
- `src/parameters.rs` lays out the parameter matrices and counts them; `src/train.rs` and
  `src/inference.rs` hold the integer decisions of training and sampling.

The numbers themselves (`f64` data, gradients, the Adam update, random initialization and
sampling) live in `app/`, which evaluates the graph the library builds.
