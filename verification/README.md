# prism_chain

The chain state of a Prism node: one tree of proposer blocks, several chains of voter blocks that
vote on its levels, and the ledger that follows from the votes. The library is written in Verus;
every function states what it returns, and the proofs are part of the sources.

## Layout

- `src/` is the library. It does no input or output. An operation is handed a function that reads
  the bytes under a key of a column, and gives back the changes to be written.
- `app/` puts the library over a RocksDB database: it opens the columns, reads, commits the
  changes, and prints the picture of the chain as JSON.
- `tests/` runs the library over a database in memory.

## What is proved

- Every operation returns exactly what a function of the chain in memory and of the records in the
  database says, or an error with which a read failed. On an error nothing changes, but for an
  update of the ledger: what it had done when the read failed stays, and is handed back to be
  committed (`stopped_update` in `src/ledger.rs`).
- A chain that starts from the genesis blocks is consistent, and stays so with every block that
  refers to known blocks and does not vote twice for one block, and with every update of the
  ledger (`src/consistency.rs`, `src/start.rs`, `src/insertion.rs`, `src/laws.rs`).
- In a consistent chain the votes that are counted are those of the voter chains, every level has
  the leader that these votes elect, and the ledger is the one that the leaders give. No record
  that an update or a query needs is missing.
- An update reports exactly how the transaction blocks of the ledger change, and a second update
  right after it changes nothing. A block that is inserted twice in a row changes nothing either.
- Of every chain that blocks and updates lead to from the genesis blocks, in any order, whatever
  the blocks refer to and vote for: the ledger has no gaps and goes as far as the leaders do, and
  an update reports how it changes. Where it takes more, the laws in `src/reached.rs` say what: the
  leader of every level, the votes that are counted, the blocks that the ledger holds, the genesis
  block at its start, and the levels.
- The ledger depends on the blocks that have entered and on their order, not on when it was brought
  up to date; the best blocks are the first of their level; and the unreferred blocks are those
  that no later block refers to (`src/runs.rs`).
- What is written to the database is what is read back (`src/change.rs`, `src/codec.rs`).

What is not proved is stated at the functions marked `external_body`: the encoding of values by
`bincode`, in `src/codec.rs`.
