# hyphae

A verified library for Hyphae's deterministic data layer, written in Verus.

- `value`, `query`, `aggregate`, `engine`: structured values and their total
  order, query validation, filtering, sorting, cursors and aggregation.
- `document`: the checksummed canonical binary document format.
- `canonical`, `lexical`, `lexical_execution`, `hybrid`: exact vector
  retrieval, the lexical tokenizer and the integer side of lexical retrieval,
  and reciprocal-rank fusion.
- `retrieval_proof`, `lexical_proof`, `hybrid_proof`, `retrieval_verify`:
  portable retrieval proofs, their byte formats, and offline replay.
- `wire`, `wire_values`, `hex`: the `/v1` wire types and their conversion to
  the domain.
- `stdio`: the per-chunk decision for bounded newline-delimited messages.

The functions of `src/` are verified by Verus; the public ones carry
`requires`/`ensures` contracts. Calls into blake3, crc32c and the Unicode crates stand behind small
trusted wrappers whose contracts are stated in their doc comments.

`app/` holds the command-line entry point and the I/O around the library:
proof-file reading, the buffered message reader, and the floating-point BM25F
scoring, which the library does not hold.
