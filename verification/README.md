# hella

The decisions of the Hella toolchain, verified with Verus: syntax tree analyses,
conditional compilation, module resolution and import expansion, manifests and
lock files, git-based package management, and what the command line and the
editor support answer.

`src/` is the library. Every function states in its contract what it returns;
`law_*` proof functions state what holds across functions. The library touches
no file, process or terminal: callers read, hand it plain values, and carry out
what it decides.

| Module | What it holds |
|--------|---------------|
| `ast`, `token`, `parse` | the syntax tree and positions in it |
| `lint` | advisory reference warnings, and the walk over a program's expressions |
| `async_req`, `graph` | which runtimes a program reaches |
| `cfg` | `@cfg(...)` conditions |
| `docs`, `interpolation` | doc comments, offsets inside decoded strings |
| `modules` | disk layout, import resolution, gathering sources, import expansion and its laws |
| `manifest`, `tomldoc`, `versions`, `source` | `hella.toml`, `hella.lock`, slot markers, git sources |
| `pkg` | `add`, `remove`, `fetch`, `update`, `list`, `clean`, `install` |
| `cli` | entry files, scaffolding, formatting runs, linking, the compile pipeline |
| `lsp` | diagnostics, quick fixes, formatting edits, signature help, auto-import |
| `text`, `utf8`, `names`, `paths`, `path_laws` | text, byte offsets, ordered names and paths |

`app/` is the `hella` program around the library: arguments, files, git, the
linker and the terminal. The compiler itself (lexer, parser, type checker and
code generator) plugs in behind `app/frontend.rs`.

`tests/` runs the library on concrete values.
