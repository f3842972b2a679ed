# babyvector

A per-directory **1-bit** quantized vector index. Each dimension of a row is
stored as its sign bit; a query is packed the same way and scored against
every published row as `dim - 2 * hamming`.

## Layout

- `src/` — the verified core (Verus): bit packing (`pack`, `quant`), the
  word-wise similarity and top-k ranking (`search`), metadata and its
  validation (`meta`), id validation, id/row file layouts and snapshot
  loading checks (`store`), the index state machine — pending rows,
  publish batches, searches over the published snapshot (`index`), the
  deterministic test embedder's byte hashing (`embed`), and decimal
  rendering for error messages (`text`).
- `app/` — the file-backed face of the library: directories and staging,
  `meta.json` through serde, memory-mapped id and row files, the publish
  lock, float embeddings, and the C interface.
- `tests/` — tests against the verified core.

On disk, an index directory holds `meta.json`, `ids.bin` (16-byte ids),
`vectors.bin` (packed rows, each a whole number of 64-bit words), a `LOCK`
file during publish and a `.staging/` directory that a publish writes before
swapping files in.
