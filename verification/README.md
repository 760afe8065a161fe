# nix_build_graph

Builds the derivations of a Nix flake in dependency order: evaluates the attributes of the flake,
follows the derivations to everything that they need, leaves out what a binary cache or this
machine has already, builds the rest under limits on the number of jobs, and uploads the outputs.

The library in `src/` is written in Verus. The rules by which it is decided what to read, build and
upload stand there and are proved against their contracts:

- `text`, `paths`, `maps`: texts as bytes and characters, store paths, maps keyed by texts.
- `aterm`, `derivation`: the grammar of derivation files and what a derivation says. `aterm_laws`
  proves that what is written is read back, `aterm_fields` that fields of which nothing is kept do
  not matter.
- `closure`: the walk from derivations to everything that they need.
- `fx`, `reach`, `search`, `graph`: the build graph, with everything that waits for a derivation,
  directly or through others. `graph_laws` says what holds of graphs and of removals.
- `cache`: where outputs are found, and what is remembered of it.
- `plan`: what is to be built.
- `schedule`: which build starts next and what the end of a build changes. `schedule_laws` says
  what holds of a run of builds: limits, order, progress, failures, and that it ends.
- `eval`, `outcome`: the lines of an evaluation, and what follows from builds.

`app/` is the program around the library: arguments, logging, processes, HTTP requests, and what is
asked of the file system, such as whether a path exists.
