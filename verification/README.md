# approvals_db

The database of the approval voting subsystem: which unfinalized blocks there are, which
candidates they include, and how far the approval of each candidate has come. It is kept in a
key-value store that is shared with the rest of the node.

The library decides what is read and what is written. It is verified with Verus. It does not touch
the store: an operation asks for one value after the other, and ends with a batch of writes.

## What is stored

| key                             | value                                         |
|---------------------------------|-----------------------------------------------|
| `Approvals_StoredBlocks`        | the range of block numbers, `StoredBlockRange` |
| `Approvals_at` + block number   | the hashes of the blocks at that height       |
| `Approvals_blck` + block hash   | a `BlockEntry`                                |
| `Approvals_cand` + candidate hash | a `CandidateEntry`                          |

Values are SCALE-encoded.

## Operations

- `add_block_entry` records a block.
- `canonicalize` prunes everything up to a block, and every branch that competes with it.
- `clear` deletes everything.

`canonicalize` and `clear` return a `Step`. `run` takes it to its end, given a function that reads
a value; `Operation` does it by hand. `add_block_entry` also needs a function that says what is
known of a candidate, and asks it once the block is known to be new. `begin_adding` returns its
first `AddStep`, to do it by hand.

## Layout

- `types`, `assignments`, `bitfield`: the entries, and what they stand for.
- `keys`, `scale`, `codec`: the keys and the layout of the values.
- `store`, `operation`: the store as an operation sees it.
- `adding`, `pruning`, `clear`: what each operation does, read by read.
- `add_block`, `canonicalize`, `tally`, `clear`: the operations themselves.
- `scale_laws`, `store_laws`, `add_laws`, `pruning_laws`, `branch_laws`, `batch_laws`,
  `canonicalize_laws`, `clear_laws`, `report_laws`: what the operations do to the database as a whole.
- `consistency`, `history`: what holds of the database between operations.
- `outside`: the calls into `bitvec` and `parity_scale_codec`. What these ensure is trusted.
- `cli`: the command line of the collator.

`app/` puts the operations to work over an auxiliary store, and parses the command line.
