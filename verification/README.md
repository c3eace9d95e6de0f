# dotter

The deployment logic of a small dotfile manager, verified with Verus.

- `src/path.rs` — paths as text: their normal form, their component order, and joining.
- `src/files.rs` — `Files`, a map from source files to targets kept in path order.
- `src/state.rs` — `FileDescription` and `FileState`: which files are new, kept or gone.
- `src/deploy.rs` — which files are templates, the file system steps for each
  file, and what the cache records afterwards.
- `src/plan.rs` — the order of a deployment's tasks, and what the caches record of each.
- `src/laws.rs` — properties of a deployment as a whole.
- `app/` — the command line and the file system around the library.
