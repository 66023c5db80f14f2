# dnx

An interaction-net engine on Delta-nets, written in Verus: the library's
functions carry `requires`/`ensures` contracts that Verus proves.

## Layout

- `src/` — the verified library.
  - `port`, `slot`, `arena`, `lopath`, `lopath_order`, `frontier`, `net`,
    `class`: packed ports, agent slots, the generation-tagged arena,
    leftmost-outermost paths and the ordered frontiers of pending work.
  - `reduce/`: the core rules (`rules`), the canonicalization rules
    (`canon`), sequential normalization (`mod`), demand-driven forcing to
    weak head normal form (`whnf`), the batched parallel coordinator and its
    worker (`parallel`), and the batched coordinator for an outside kernel
    (`gpu`).
  - `blob_format`, `blob`, `canonical_hash`, `funeq`: the canonical byte
    codec, content hashing (BLAKE3 through a trusted wrapper) and function
    equality by hash.
  - `ast`, `text`, `elab/`: the core term language and the three-pass
    elaborator into nets.
  - `effect`, `church`: effect rows and Church booleans.
  - `wire`, `dist`: the replication wire format and the result cache.
  - `proto`: the build daemon's socket messages and how a client reads
    each reply.
  - `lock`, `flake`: the flake lock file and the flake front end that reads
    outputs, inputs and description off the surface of `flake.nix`.
- `tests/` — tests of the library.
- `app/` — ordinary Rust around the library: primitive values and the
  evaluation driver that fires them, effect handlers, the thread-pool
  reducer, the on-disk cache and TCP replication, the daemon socket client,
  and the file and parser side of flakes.
