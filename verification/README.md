# euv_app

The verified core of the euv shell, a Tauri application that serves the euv web
frontend from an offline cache of the remote page.

- `src/` is the library, written in Verus and proved:
  - `text`: byte-level string primitives (search, trimming of Unicode white space,
    slicing on character boundaries, de-duplicating appends).
  - `extract`: discovery of `src`/`href` attribute values, relative ES module
    imports and `.wasm` references in HTML and JavaScript.
  - `paths`: relative-path cleaning, base URLs and MIME types.
  - `bridge`: Android permission groups and their resolution by name.
  - `versions`: version directory names, the active-version pointer and the
    choice of old versions to delete.
  - `cache`: cache errors, update outcomes and response size checks.
  - `snapshot`: planning and checking of a cache snapshot, and the decision to
    switch to it.
  - `serve`: request paths, script injection and responses of the `euv://` scheme.
  - `lifecycle`: the step-by-step decisions of deploying the bundled cache, of
    retrying snapshot fetches and of waiting for an active version.
- `tests/` runs the library on concrete inputs.
- `app/` is the shell itself: Tauri setup, HTTP fetching, file-system access and
  the scheme handler, each step delegating its decisions to the library.
