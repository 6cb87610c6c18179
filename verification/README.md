# syncodex

Back up, merge and restore Codex conversation history, with its decisions verified in
Verus.

- `src/` is the verified library: which paths a snapshot may hold (`paths`), the
  snapshot manifest and its checks (`manifest`), file fingerprints (`digest`), the
  inventory of a Codex home (`inventory`), JSON Lines framing (`jsonl`, `json`), the
  merges of rollouts and input history (`merge`) and of the name index (`index`), the
  decisions of taking (`dump`) and restoring (`inject`) a snapshot, listing (`listing`),
  and the examination of a restored conversation through the Codex app-server (`codex`).
  Laws about the merges are public proof functions named `law_*`.
- `app/` is the command-line program: file and database I/O, the directory walk, the
  app-server process, JSON parsing and printing.
- `tests/` runs the library on concrete inputs.

## Design notes

- Restoring runs as a loop in `app/` that performs the I/O and asks `inject` at each
  step: `plan_entry` decides keep, skip, refuse or stage for every entry (asking for the
  compressed or plain sibling of a rollout when it needs it), `go_ahead` stops a dry run
  or an empty restore, `approve_writes` lets nothing be written unless every target still
  holds what it was planned against, and `write_action`, `backup_name` and
  `journal_record` fix how each target is written and what the recovery journal says.
- Sets and maps of names are sorted vectors with a proved ordering invariant
  (`order::NameSet`, and the state of the name-index merge), and repeated history lines
  are removed with `Seq::remove_duplicates` in the specification. Verus specifies std's
  `HashSet` and `BTreeMap` usefully only for keys such as integers; with `String` keys
  nothing about their contents can be proved, so those collections are not used.
- A `JsonLine` carries a parsed value and its compact JSON text. Both are made from the
  same line in `app/` by serde; the library relies on, and cannot prove, that the text is
  the serialisation of the value.
