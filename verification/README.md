# sentrux-core analyses, verified

A Verus library for two dependency-graph analyses over source files:

- **jdeps resolution** (`src/jdeps.rs`, `src/jdeps_parse.rs`, `src/fqn_index.rs`):
  parses `jdeps` output (`.dot` files and `-verbose:class` text), indexes Java
  sources by fully-qualified name, and maps class dependencies to file-level
  import edges. The steps that need the file system or the `jdeps` process are
  returned to the caller as `JdepsStep` values.
- **cycle breaking** (`src/cycle_break.rs`, `src/graph.rs`, `src/file_graph.rs`):
  counts dependency cycles (strongly connected components with more than one
  member), lists the edges inside cycles with their blast radius and fan-in/out,
  and runs the greedy cut pass over a ranked order of those edges.

`src/laws.rs` and `law_scc_count_counts_components` in `src/graph.rs` hold the
properties proved for all inputs. `src/text.rs` has the character-level helpers.

`app/` holds what stays outside verification: running `jdeps`, the
floating-point cost ranking and serializable reports, score colours and egui
drawing. `tests/` runs the library on concrete inputs.
