# i18n_hunt

Finds unused i18n translation keys in JavaScript/TypeScript projects.

- `src/` is the verified library (Verus):
  - `engine/source.rs`: from the events of a parsed source file (calls,
    JSX elements, `const` bindings, iterator callbacks) to translation key
    usages: static keys, template-literal prefixes, dynamic usages, with
    their namespaces.
  - `engine/locale.rs`: locale catalogs: namespaces from paths, flattened
    keys from JSON documents.
  - `engine/analysis.rs`: which locale keys no usage protects.
  - `engine/fix.rs`: removing unused keys from locale documents (a key is
    its flattened name, whether its dots come from nesting or from member
    names), grouped by file in `Path` order.
  - `engine/glob.rs`: the exclude patterns (`*`, `?`, `**/`).
  - `engine/json.rs`: the JSON model, and reading and writing JSON text
    through `serde_json` (the only trusted code: its contract names the
    results rather than restating `serde_json`).
  - `engine/text.rs`: string and path helpers (file names and extensions as
    `std::path::Path` computes them).
  - `settings.rs`: the `i18n-hunt.toml` settings file, in a subset of TOML:
    `key = value` settings whose values are strings (double-quoted with the
    usual escapes but `\u`, or single-quoted) or arrays of strings (which may
    span lines), with `#` comments; tables, quoted or dotted keys, multi-line
    strings and other value types are refused.
  - `cli.rs`: how command-line arguments and the settings file combine
    into the configuration of a run.
- `app/` is the command-line program: argument parsing, directory walks,
  file I/O and the JavaScript parser walk.
- `tests/` exercises the library.
