# gong-cli

A command-line tool that mirrors Gong Calls into a directory of Markdown
Call Files (`check`, `list`, `get`, `sync`), with its logic verified by Verus.

## Layout

- `src/` — the verified library.
  - `api` — the Gong data model (Calls, Parties, Transcripts) as plain values.
  - `renderer` — the Call File: front matter, body, Transcript turns, file name.
  - `callfile` — reading Call Files back: front-matter id, placeholder, the date in a name.
  - `sync` — planning a sync: file names, matching existing files, actions, orphans, counts.
  - `reorder`, `order` — why the order in which Gong lists Calls or Parties does not change the result.
  - `rerun` — why the order of the directory scan does not matter, and why a second run over the same Calls writes nothing new.
  - `window`, `dates` — sync and list windows; calendar dates through `chrono`.
  - `status` — the status file written around a sync, and reading it back.
  - `client` — pagination, retry and back-off decisions, Gong error messages.
  - `json` — JSON documents as plain values, as `serde_json` reads them.
  - `transcripts` — collecting Transcripts batch by batch.
  - `config`, `cli`, `commands` — settings precedence, the command line, and what each command prints.
  - `text` — whitespace, YAML escaping and number formatting.
- `tests/` — tests of the library on concrete values.
- `app/` — the program around it: argument parsing, HTTP, files, terminal.

Verus proves each function in `src/` against its `requires`/`ensures`; the
public `lemma_*` proof functions state properties that span several calls.
Calls into `chrono`, `unicode-normalization`, `serde_json` and a few std
functions stand behind `#[verifier::external_body]` wrappers whose doc
comments say what is assumed.
