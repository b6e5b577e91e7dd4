# omendb_hnsw

Approximate nearest-neighbour search over vectors with a layered graph (HNSW),
verified with Verus.

- `src/` is the library. Vectors and distances are carried as the bits of
  single-precision floats; what has to be computed in floating point (the
  distance, the level of a node, a quantization) is a function that the caller
  passes in, and every contract holds for whatever it returns.
- `app/` supplies these functions, and does what needs files, memory maps,
  locks and threads.
- `tests/` runs the library on concrete vectors.

## Layout of the library

| Module | What it holds |
| --- | --- |
| `graph` | greedy descent and beam search on any storage of a layered graph |
| `index` | insertion, search, batch and sequential construction, statistics, the index file |
| `storage`, `node_storage` | flat storage, and storage with vectors and links side by side; SQ8 and RaBitQ codes; byte formats |
| `neighbor_lists`, `frozen_lists`, `graph_storage`, `neighbor_codes`, `vector_storage` | link lists that grow, their packed form, and vectors apart from them |
| `segment`, `segment_persistence`, `segment_manager` | mutable and frozen segments, their files, rollover, merging and recovery |
| `engine` | a manager with a single segment |
| `batch_builder` | clustering before construction |
| `extended_rabitq` | codes of two to eight bits with a Hadamard rotation |
| `query_buffers`, `visited`, `candidates` | what a search works with |
| `bytes`, `framing`, `decimal`, `json` | numbers, blobs and texts in files |

Proof functions named `law_...` state what holds across functions: what a file
gives back, what insertion, freezing and merging keep, what search results are
like.
