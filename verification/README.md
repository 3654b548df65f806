# miyu

The core of an agent service, verified with Verus: what it decides, computes
and keeps. What touches the machine is around it.

## Layout

`src/` is the library. Verus checks its code against its contracts, except that
the contracts of the items that call outside crates and parts of the standard
library are believed: each names the call and what is claimed of it.

- `config`: the manifests of personas, the plugins, and the catalog of features
  that a user picks from.
- `llm`: how failures of providers are classified and retried, and when a
  provider's prompt cache was broken, and why.
- `ipc`: frames over a stream.
- `models_cache`: which models of a catalogue are kept.
- `paths`, `shell`: the search path, and the hook of the shell.
- `state`: conversations, the ledger of model calls, migrations of the schema,
  and the messages that the service writes into conversations.
  `state::conversation_db` models the tables of the database as rows. Its
  operations say what becomes of every table.
- `text`, `json`, `toml_doc`, `text_map`, `table`, `digest`, `hex`, `clock`,
  `i18n`: what the others are written with. The items that call outside crates, and
  what is believed of those calls, are in `text`, `json`, `toml_doc`, `digest`,
  `clock` and `state::conversation_db::audit`.

Laws stand at the end of the files they belong to, as public proof functions.

`tests/` runs the library. `app/` is what stands between it and the machine:
sockets, files, the environment and SQLite.
