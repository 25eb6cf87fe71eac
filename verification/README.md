# autoken

AuToken adds borrow-aware context passing to Rust: functions declare, with `tie!`, that
a returned reference borrows a global token, and a static analysis checks that no
token is borrowed mutably twice, that borrows do not outlive the regions they are
tied to, and that entry points, destructors, `extern` functions and unsized
functions borrow nothing.

This crate is that analysis, verified with Verus. Compiler entities (functions,
types, regions, spans, locals) enter as numbers; what the compiler computes about
them enters as plain values.

- `src/tokens.rs`: token sets and their algebra (union, downgrade, difference,
  absorption).
- `src/trace.rs`: propagation of borrow facts through call graphs; a function that
  calls back into one still being analyzed is merged into that function's group and
  ends with the facts of the group's first function.
- `src/mir_builder.rs`, `src/template_facts.rs`: rewriting a body so that borrow
  checking sees tokens, and the template each body yields.
- `src/regions.rs`, `src/overlap.rs`, `src/template.rs`: regions reachable through
  outlives constraints, leaked locals, borrow conflicts, validation of a template.
- `src/driver.rs`: checking a whole crate.
- `src/leaks.rs`, `src/demos.rs`: the leak-counting analysis and the programs
  it was demonstrated on.
- `src/shapes.rs`: region structure of types and the walks over it.
- `src/messages.rs`: the texts of every diagnostic.
- `src/launcher.rs`, `src/versions.rs`: decisions of `cargo autoken` and the format
  version checks shared with the userland crate.
- `src/util.rs`, `src/vec_map.rs`, `src/pair.rs`, `src/feeder.rs`, `src/obj.rs`,
  `src/mutability.rs`: the small types the rest is built from.
- `app/main.rs`: the `cargo autoken` command-line tool (process and file handling).
- `tests/`: tests on concrete values.
