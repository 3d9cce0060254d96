# aien

The core of an in-process language-model runtime, written and proved in Verus: a paged KV
cache with copy-on-write branches, a continuous-batching scheduler, the forward passes of a
transformer over paged storage, and the spine that ties them together.

## What is proved

- **KV cache** (`kv_state`, `kv_manager`, `kv_laws`, `sharing`, `pages`, `history`). Blocks are
  counted, shared and copied on write. A branch costs no block when it is made; a token that was
  stored reads the same ever after, whatever other sequences do; every block comes back, and the
  page counts add up.
- **Tensor pool** (`layout`, `pool`, `buffer`, `floats`). Strides and offsets of K and V rows,
  rows that do not overlap, and what a row reads back as after it was stored.
- **Scheduling** (`scheduler_state`, `scheduler`, `scheduling`, `sequence`, `completion`).
  Batches keep to their limits, no request is lost or doubled, queues keep their order,
  pressure preempts one sequence of the lowest priority, and an idle scheduler holds no block.
- **Inference** (`tensor`, `weights`, `forward`, `prefill`, `decode`, `passes`, `agreement`,
  `transformer`, `generation`, `embedded`, `backends`, `surface`). Token passes, prompts layer
  by layer or token by token, batched decoding, generation, and whole steps, over any tensor
  backend.
- **Runtime** (`platform`, `abi`, `spine`, `shared`). Numbering of work, steps, swarms of
  branches, operator commands, and a manager behind a lock.

Floating-point values are carried as IEEE-754 bit patterns. Tensor arithmetic belongs to the
`TensorBackend` that is handed in.

## Layout

- `src/` holds the library. Each stateful type has a mathematical state as its view, and each
  operation is a function on that state. The laws are public proof functions named `law_*`.
- `tests/` runs the library from outside.
- `app/` holds what surrounds it: detection of the machine, asynchronous backends, locks,
  floating-point estimates, and serialisable forms of the plain types.
