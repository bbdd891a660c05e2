# lace_util

Platform-independent utilities for boot applications, written in Verus:
the functions in `src/` state what they compute in `requires`/`ensures`
contracts that Verus proves (the constructors of the stateless boot-flow
types have nothing to state), and public proof functions state the laws
that tie functions together, such as that an image written by the PE
rebuilder reads back as its sections.

What the library covers:

* binary formats: PE images (parsing, loading, rebuilding with added
  sections), ELF64 program headers, CBFS flash images (reading, creating,
  adding and deleting files), ACPI tables, SMBIOS structures, EDID blocks,
  device trees (header checks) and GUIDs;
* hardware IDs: CHID computation (SHA-1 based UUIDv5) and the matching of
  CHID mappings against the running machine;
* boot configuration: GRUB menus, Boot Loader Specification entries, kernel
  version ordering and the choice of a boot flow;
* small helpers: alignment arithmetic, size units, hex dumps.

Layout:

* `src/` — the verified library. Calls into outside crates (`fdt`, `regex`)
  stand behind a few trusted wrappers whose contracts are documented where
  they are declared.
* `tests/` — ordinary Rust tests run against the compiled library.
* `app/` — the command-line tools and the firmware-facing glue (file and
  device I/O, argument parsing, JSON and TOML input) that call the library.

Run `verus` on `src/lib.rs` to check the proofs; `cargo test` runs the tests.
