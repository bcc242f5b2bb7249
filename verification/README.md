# hypatia (verified core)

The library under `src/` is written in Verus and verified: every public
function carries a `requires`/`ensures` contract over mathematical models
(`Seq`, `Set`, `Map`, views of the data types), and the properties that span
several calls are stated and proved as `law_*` proof functions.

Layout of `src/`:

- `text.rs` – character-level utilities: UTF-8 byte lengths, line splitting
  as `str::lines` does it, white-space trimming, prefixes, decimal numbers.
- `digest.rs` – SHA-256 (through `sha2`) rendered as lowercase hex.
- `paths.rs`, `clock.rs` – path algebra from `std::path`, the home directory
  and the wall clock, behind trusted wrappers.
- `miner/` – the code-aware chunker, the miner configuration, the scanner's
  skip decisions (through `ignore`) and the incremental watcher with its
  cache text (through `serde_json`).
- `model/`, `service/` – projects, the project registry and its manager,
  query targets and options.
- `daemon/` – the watch daemon's state, its decisions, and its event loop
  as a step function (`debounce.rs`) that `app/` drives.
- `hybrid/` – grouping of full-text and vector hits for rank fusion.
- `lab.rs`, `config.rs` – the records mined from a file (names, tags, text,
  symbol), report texts and configuration templates.

`app/` is the command-line program around the library: file and network I/O,
serialization, the embedding model and vector store (floating point), and
argument parsing.
