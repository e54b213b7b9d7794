# jv

A fast dependency resolver for Java and the JVM ecosystem: it reads Maven
POMs (and basic Gradle `dependencies {}` blocks), resolves transitive
dependencies with Maven's "nearest wins" rule, keeps a global cache and
writes a deterministic `jv.lock`.

The resolution engine is a library verified with Verus; every public
function states its result in its contract.

## Layout

- `src/` — the verified library
  - `models/` — coordinates, scopes, dependencies, artifacts, Maven
    versions (tokenizing and the Maven order, with its order laws) and
    version ranges
  - `parser/` — the POM model and its conversion to the resolver's `Pom`;
    Gradle dependency notation (through the `regex` crate)
  - `resolver/` — effective POMs (parent chains, property interpolation,
    `<dependencyManagement>`), the transitive resolver as a state machine,
    direct-only resolution, and the bridge to the `pubgrub` solver
  - `cache/` — cache layout and integrity hashes of cached POMs (`sha2`)
  - `repository/` — repositories, remote paths, `maven-metadata.xml`
  - `lockfile/` — lock file content, sorted and stable
  - `text.rs` — the character-level text functions the rest is built on
- `app/` — the `jv` program: argument parsing, HTTP, files, progress bars,
  XML and TOML (de)serialization, around the library
- `tests/` — tests of the library
