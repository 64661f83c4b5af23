# slipstream

Measures how well the footprints of Soroban transactions parallelize under
Stellar's phased execution model: footprint conflicts, the conflict graph,
greedy stage scheduling and lanes, critical paths, hot keys and per-key
contention, static storage-access analysis of contract sources with its
detectors, and replay of recorded capture documents (XDR).

## Layout

- `src/` — the library, written in Verus. Every function carries a contract
  over a mathematical model (sequences, sets, integers), and the library's
  laws are stated as proof functions:
  - `keys`, `keyset`, `footprint` — ledger keys, sorted key sets, the conflict
    rule;
  - `scheduler`, `lanes` — conflict graph, greedy and serial schedules, lane
    schedules;
  - `score` — per-transaction metrics, critical paths, hot keys, contention;
  - `analysis`, `syntax`, `callgraph`, `detectors`, `totals` — storage-access
    records, key extraction from expression shapes, call resolution and
    effective footprints, detectors, scan totals and diffs;
  - `xdr`, `replay` — the capture format with its round trip, and transaction
    sets decoded from captures;
  - `simulate` — deterministic synthetic transaction sets;
  - `text`, `names` — decimal/hex rendering and sorted name sets.
- `tests/` — tests of the library on concrete values.
- `app/` — the `slipstream` command line: file I/O, parsing Rust
  sources with `syn`, JSON output, and the floating-point ratios.
