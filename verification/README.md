# painpkg

The package manager of the Pain language: project manifests (`pain.toml`),
packages, a registry (a local directory, a clone of the GitHub registry, git
checkouts) and breadth-first dependency resolution.

- `src/` is the library, written in Verus with contracts:
  - `version.rs`: semantic versions and requirements (through the `semver`
    crate) and the newest-first ordering of versions;
  - `text.rs`: prefixes, infixes, trimming, line splitting, string order;
  - `depmap.rs`: dependency tables (name to requirement text);
  - `manifest.rs`, `package.rs`, `registry_metadata.rs`: the data;
  - `registry.rs`: index and metadata paths, version selection, the order
    in which places are asked for a package's versions, the local scan's
    name filter and index records, the index file, search matching, the
    package cache, git cache directories;
  - `resolver.rs`: requirement texts, choosing versions, and the resolution
    state machine;
  - `error.rs`: the library's errors.
- `app/` is the command-line program: argument parsing, files, `git`, and the
  loop that performs the lookups resolution asks for.
- `tests/` exercises the library on concrete values.
