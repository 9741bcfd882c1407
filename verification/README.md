# camerata

Camerata scaffolds curated AI-orchestration principles into a repository:
it resolves each selected rule to one directive, writes AGENTS.md and
CONVENTIONS.md plus a `camerata.lock` of content hashes, reports upstream
drift against that lockfile, and lints the principle library.

## Layout

- `src/` is the library, written in Verus and verified:
  - `principle.rs`: the principle schema and option lookup;
  - `emit.rs`: rendering, hashing, the lockfile writer and reader, drift
    reports, emission order, scaffold plans and routing to directories;
  - `path.rs`: directories compared as paths, component by component;
  - `registry.rs`, `cli.rs`, `lint.rs`: library loading order, command-line
    selection, and the schema checks;
  - `profile.rs`: saved selections and their migration;
  - `session.rs`, `workspace.rs`, `custom.rs`: the state behind the desktop
    front end (listing order, toggles, restoring a profile, navigation, the
    guide reader, profile snapshots, custom rules, custom domains, authored
    options, repositories and routing, and the delete confirmations);
  - `laws.rs`: properties proved across these operations.
- `tests/` runs the library on concrete values.
- `app/` is the command-line program: argument parsing, prompts, reading
  and writing files, and the serde and TOML formats.

The desktop window itself is not built here: drawing it needs a desktop UI
toolkit that is not among this project's dependencies. The state changes
its controls make are in `session.rs`, `workspace.rs` and `custom.rs`;
what stays with the window is its form and banner bookkeeping (which panel
is open, text being typed, dirty flags), the folder picker, creating a
repository on disk, and autosave.
