# hanzo_core

The verified core of the Hanzo node libraries, written in Verus.

`src/` is the library; every function in it is verified against its
contract. It covers:

- `text`, `numtext` — characters, white space, lines and words; Rust's
  integer parsing rules; decimal and hexadecimal rendering.
- `base58`, `address` — base58 (with leading-zero bytes) and the wallet
  address format (BLAKE3 hash, version byte, checksum).
- `script`, `tokens`, `query`, `dedup`, `embed`, `temporal`, `range`,
  `config`, `captions` — the brain's text algorithms: script counts and
  CJK/emoji n-grams, token estimates and budget truncation, query shape,
  websearch parsing and FTS5 rendering, chunk chains, the embedding model
  registry, UUIDv7 bounds, HTTP ranges, model slugs, the runtime
  configuration and link-type rules, caption files.
- `machine`, `sidecar` — VM management: errors, states and records of the
  C ABI, backend choice, and the sidecar's HTTP/1.1 framing (request head,
  response parsing, chunked transfer coding).
- `evm`, `precompiles` — EVM backends and block gas, the precompile
  registry (built-in precompiles and the user's own), calldata decoding
  and results of the custom precompiles.
- `api` — bearer tokens and reply statuses of the v1 HTTP API.

Laws stated as proof functions include the base58 and address round trips,
the chunked-coding round trip and the rejection of a body cut inside a
chunk, the monotonicity of the token estimate, the order of UUIDv7 bounds
within and across milliseconds, the agreement of the CJK and emoji tests
with the script counts, slug round trips, configuration precedence, and
read-after-write of both registries and the listing size of the embedding
registry.

`app/` holds what the verifier does not see: socket and file I/O,
floating-point retrieval algorithms, serde shapes, the process-wide
embedding registry, and the calls into the ML-DSA verifier, the Lux
precompile library and the inference engines. The Quasar precompile's
dispatch is handed to the verified `quasar_query`, which decodes the
calldata, fixes what is sent and maps every reply.
