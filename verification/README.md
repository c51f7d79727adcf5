# savescummer_catalog

The rules of SaveScummer's game catalog and of its host, as a library whose
behaviour is stated in `requires` / `ensures` contracts and proved with Verus.

- `src/` — the verified library:
  - `text`, `paths`, `glob`, `broad`: text and path helpers, the catalog's
    glob patterns and the broad-folder rule on path templates;
  - `model`, `placeholders`, `resolve`: the bundle model and its validator,
    placeholder expansion, and how an install's save set is chosen;
  - `games`, `inputs`, `manifest`, `translate`, `identity`, `report`,
    `builder`: the catalog build, from `games.csv`, the addendum and the pinned
    manifest to a validated bundle and its report;
  - `host`, `catalog_store`, `scan_queue`, `cli`: the host's decisions
    (artwork names, retry waits, availability, admission of operations and
    what each checks before it starts, store moves, history paging and row
    actions, the catalog download store, the scan queue) and the
    command-line client's texts and exit codes.
- `tests/` — tests of the library on concrete values.
- `app/` — the `catalog-gen` command: reads the input files, parses the YAML
  and JSON formats with serde, calls the library and writes the bundle.

Each module states its laws as public proof functions named `law_...`.
