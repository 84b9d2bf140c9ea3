# verification_tool

Checks a block of ledger transfers by replaying it as a history of map
methods (producers that open accounts, writes that move money) and judging
that history the way a checker of concurrent data-structure histories does.

The library (`src/`) is verified with Verus:

- `types` — methods, transfers and transfer events.
- `item` — the checker's per-item weights, kept as exact fractions, with
  their arithmetic (demotions, promotions) and laws about it.
- `model` — what the checker means, method by method: the state of a replay,
  when it rejects a history, and when fixed-width arithmetic or a table index
  would fail (the replay "gets stuck").
- `ordered_map`, `key_order` — the ordered map of methods (a `BTreeMap`
  keyed by response) and the sequence of its entries in key order.
- `checker` — the executable checker (`verify`) proved against the model.
- `ledger` — the plain reading of a history (apply each update in turn) and
  the law that, for the histories blocks produce, the checker agrees with it.
- `block` — building a block's history and checking it against the balances
  the ledger reports (`verify_block`).
- `text`, `connector` — reading the ledger's text: transfer events, account
  states written as `address:balance|...`, address ids.
- `runnable`, `deciding` — deciding beforehand whether a replay goes
  through, for a block's plain history and for any history, so callers can
  meet the checker's preconditions.
- `conservation`, `flags`, `renaming` — laws of the whole check: a block
  keeps the sum of the balances, the success flags of reads and writes
  decide nothing, and only equality between addresses matters.

`app/` holds the C entry point `go_rust_connector`, which decodes the JSON
events and the C strings and calls the library.
