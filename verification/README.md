# phl

The decision logic of an instance manager for DSH installations, verified
with Verus: plugin patch editing (`cordis.patch.yml`), plugin catalog and
source resolution, install transactions and their recovery, resource locks
and the task registry, storage migration journals, runtime catalogs and
checksums, instance health checks, and the session log codec used to copy
sessions between homes.

Layout:

- `src/` — the verified library. Each module states its behaviour over
  spec functions (`Seq`, `Map`, `Multiset` models of lines, journals, rows)
  and proves it; public `lemma_*` proof functions state the properties that
  hold across calls (for example, that a flag written to a plugin's row is
  what the registration reader gives back, that a rollback leaves the
  previous package in place, that a held resource key excludes every
  conflicting acquisition).
- `src/plugins/install.rs` and `src/runtimes/install.rs` — the plugin and
  runtime install pipelines as state machines (step outcome in, next step
  out), with the integrity checks a download must pass and the install
  record; `src/runtimes/archive.rs` keeps archive entries inside their
  destination.
- `src/json.rs`, `src/yaml.rs`, and a few functions in `src/sessions/codec.rs`,
  `src/runtimes.rs`, `src/plugins/install.rs`, `src/hexdigits.rs` and
  `src/plugins/market.rs` call `serde_json`, `serde_yaml`, `zstd`,
  `semver`, `sha2`, `base64`, `hex` and `std` through small trusted wrappers
  whose contracts name what the call returns.
- `tests/` — executable tests of the library.
- `app/` — the file-system side: reading and writing patch files,
  journals and session artifacts, probing ports and binaries, the loops
  that drive the install pipelines, and the serde copies of the library's
  wire types.
