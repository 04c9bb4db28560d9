# velo

The decision-making core of Velo, a fine-grained reactive Rust→WASM
single-page-app framework, written in Verus with its behaviour stated as
contracts and proved.

## Layout

- `src/` — the verified library.
  - `reactive.rs`, `signals.rs` — the reactivity engine: signal values,
    subscriptions, the re-run queue, batching and disposal, and the signal
    handles over it.
  - `context.rs` — scoped context values looked up by type.
  - `markup.rs` — the markup grammar of `view!`, read into build events;
    `view_attrs.rs` — what `view!` does with tags and attributes, and the
    class and style registries.
  - `arrow.rs` — the JS-style arrow-closure sugar of `view!` and the
    closure each form stands for in event and reactive positions.
  - `keyed.rs` — the keyed list update plan.
  - `route_files.rs`, `app_files.rs` — file-based routing: route paths,
    layout chains, nearest error/loading files, typed path helpers, the
    plan of `app!`, and the compile-time route check.
  - `route_match.rs`, `router.rs`, `route_list.rs` — runtime route matching,
    the router's per-navigation decisions and layout registry, and the
    `routes!` table grammar.
  - `query.rs`, `fetch.rs`, `boundary.rs`, `cli.rs` — query strings, fetch
    errors, error boundaries, and the scaffolding rules of `velo new`.
  - `text.rs` — character-sequence helpers shared by the above.
- `tests/` — tests of the library.
- `app/` — the browser, build-time and command-line code around the
  library: closures and effects over a thread-local engine, the DOM layer,
  router wiring, `fetch`, the token side of the macros, and the CLI.
