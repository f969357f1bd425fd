# recall

A persistent three-layer memory for coding-assistant sessions: curated facts
(`memory/MEMORY.md`), a rolling window of recent sessions (`EPHEMERAL.md`) and
full conversation archives (`conversations/`, indexed in `ARCHIVE.md`).

The library takes the names it works with as values (`names::Names`): the
tool's command name (which the archiving hook runs and which names the
protocol file `rules/<tool>.md`), the host assistant's directory under the
home directory, and the host assistant's product name. The command-line front
end takes the tool's name from its executable's name; a tool named
`recall-<host>` serves the host whose directory is `~/.<host>`, unless
`RECALL_HOST_DIR` names another; the product name comes from
`RECALL_HOST_PRODUCT`. The memory directory is that host directory under the
home directory unless the variable `<TOOL>_HOME` (the tool's name upper-cased,
`-` as `_`) names another.

- `src/` is the verified library:
  - `text` — UTF-8 byte search, string equality, prefixes and suffixes,
    decimal rendering with padding, and the lowercase mapping.
  - `search` — which lines match a case-insensitive query, how matches are
    highlighted, which context lines surround them, which archive files are
    read and in which order, and what the search command prints.
  - `json` — a model of the settings file's JSON, the hook rules over it
    (finding a hook command, adding a hook entry), and the text of the
    settings file (parsed and pretty-printed through serde_json).
  - `init` — the set-up steps, what each prints, which files are kept, and
    how the archiving hook is merged into the settings.
  - `names` — the names above, and the override variable's name.
  - `paths` — where the memory directory lives and how paths are joined.
  - `checkpoint` — what a checkpoint records and where it is written.
- `app/` is the command-line front end: argument parsing, file-system access,
  printing.
- `tests/` runs the library on concrete values.
