# dateifinder

The search core of a local file-name finder, verified with Verus.

- `src/` is the verified library:
  - `text` — Unicode whitespace, word splitting, trimming, ASCII case folding,
    substring search;
  - `query` — query tokens and the all-tokens name matcher;
  - `paths` — Unix path components over the bytes of an encoded path,
    component-wise `starts_with`, file name and extension;
  - `entry` — file entries: stable identifier, name, extension, kind;
  - `roots` — the session's released roots and the checks that keep file
    operations inside them, comparing paths byte for byte;
  - `export` — export limits and the exported text;
  - `traversal` — the breadth-first search as a state machine;
  - `search` — request checks, the session registry and search events.
- `app/` is the desktop application around it: Tauri commands, dialogs,
  file-system reads, threads and events. It canonicalizes paths, reads
  directories and metadata, and hands the outcomes to the library, paths as
  their encoded bytes; the files it opens are the ones whose bytes were
  checked.
- `tests/` run the library on concrete inputs.
