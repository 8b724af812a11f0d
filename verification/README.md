# dig-updater-broker

The privileged broker of the DIG updater, with its behaviour stated in contracts and proved by
Verus.

An update takes two processes. An unprivileged worker fetches a signed feed, verifies it and stages
artifacts. The privileged broker verifies the chain again, decides per component whether to install,
update or leave it, replaces binaries behind a health check, and rolls back on failure.

- `src/` is the library: every decision, from reading an ELF image or an access-control list to the
  order of a whole pass. What the system does is handed in as closures. A function's `requires` says
  when it may call each of them, and its `ensures` says what follows from what they answered, so
  orders such as "the trust state advances only after every other component was installed" or "a
  stopped service is always started again" are part of the contracts. A step that must not be made
  twice is a closure that can be called once, or one that takes a value and gives it back.
- `tests/` runs the library on files and hosts in memory.
- `app/` is the broker on a real host: files, processes, privileges, stored documents.

What spans several functions is stated as public proof functions, for instance that a swap never
loses its target (`src/swap.rs`), that an installed component holds the verified bytes
(`src/install.rs`), that the trust state advances only over components that were verified and checked
(`src/pass.rs`), that no rollback goes below the floor (`src/rollback.rs`), and that a component
that must not be executed is never planned (`src/plan.rs`).

The code of other crates that the library calls is behind small trusted functions whose doc comments
say what is claimed of it: `sha2` (`src/hashing.rs`), `serde_json` (`src/installed.rs`) and
`dig-release-resolver` (`src/resolver.rs`); of the standard library, `String::push`
(`src/text.rs`), `String::from_utf8_lossy` (`src/elf.rs`) and `str::to_lowercase`
(`src/liveprocess.rs`).
