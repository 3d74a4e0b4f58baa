# rewatch

The decision logic of rewatch, a build system for ReScript monorepos, as a
library whose functions carry contracts that Verus proves.

## Layout

- `src/` — the verified library:
  - `text`, `paths`: character-level text operations and a model of how Unix
    paths split into components (file name, stem, extension, lexical
    absolute form);
  - `helpers`: where compiler assets and build folders live, module names and
    namespaces;
  - `config`, `bsconfig`: the package configuration (`rescript.json`,
    `bsconfig.json`) and the compiler flags derived from it;
  - `packages`: namespaces of packages, the flat list of source folders,
    the dependencies still to read into the package tree, and registering
    a package's source files as modules;
  - `parse`: ppx selection, parser arguments, which modules are parsed
    again, how parse outcomes are recorded per module, and the outcome of
    the whole step;
  - `embeds`: which generator runs on embedded code, how generated files
    join the build, and which embeds a module keeps (failed ones are left
    out);
  - `clean`: which modules failed, the cleanup plan after a previous
    build (what is stale, what is unchanged, which modules were deleted),
    and what a finished build leaves to remove;
  - `dependency_cycle`: finding a shortest dependency cycle (the search may
    stop at one of at most three modules) and printing it;
  - `watcher`: which file changes matter, which module a change marks, what
    build they call for, and when the command after a build runs;
  - `lock`, `logs`, `cmd`, `structure`, `grouplike`, `cli`, `filter`,
    `case`, `build_types`.
- `tests/` — tests on concrete values.
- `app/` — the side that touches the outside world (command line, files,
  processes, file-system events, reading source folders, registering
  packages, running embed generators, removing stale and failed build
  output, the watch loop); it gathers inputs for the library and acts on its answers. The
  compiler driver itself (running `bsc` over the module graph) is not part
  of this crate, so `app/` is a library of these pieces rather than a
  program.

Outside crates are reached through a small number of trusted items, each with
a doc comment that says what it claims: `convert_case` (case conversion),
`regex` (matching and replacing), and `ahash` (sets of names and folders).

The `--filter` pattern is read two ways, as rewatch reads it: when the
source folders of a package are read, only files whose names match are
kept; in watch mode, changes to files whose names match are ignored.
