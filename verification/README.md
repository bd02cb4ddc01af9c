# deshred

Shreds in, transactions out: receives Solana shreds (UDP datagrams) and turns them
into entry batches, with Reed-Solomon recovery of what was lost on the way. The
library is written in Verus, and its contracts are proved.

- `src/` is the library. `deshredder` is the entry point: push datagrams, get entry
  batches. Below it are `shred` (wire format), `merkle` (proofs), `fec` (one set of
  32 data and 32 code shreds), `slot` (complete runs of data shreds) and `entry`
  (decoding). `fixture` is the capture format, `view` reads transactions in place,
  `analysis` measures what recovery saves, and `receive` is the receiving side without
  its socket. `history`, `block`, `run` and `degraded` hold the laws of the whole.
- `tests/` are the library's tests.
- `app/` is the program: `listen` on a port, `replay` a capture, `analyze` one.

## What is proved

Every contract speaks of a mathematical model: a shred is its wire bytes, a FEC set
the shreds in its 64 places, a slot its sets and three sets of indexes, a deshredder
its slots and counters. The main results:

- `Shred::parse` accepts exactly the well-formed datagrams, and names what is wrong
  with the others.
- The proof of any leaf of a Merkle tree leads to its root.
- A FEC set that holds any 32 shreds of a set as its leader made it recovers all its
  data shreds.
- A slot emits each complete run of data shreds once, as soon as it is complete, and a
  shred that comes again completes nothing (`history`).
- The entry batches of a block come out, and nothing else, whichever half of each of
  its FEC sets arrives, in whatever order and however often (`block`), and slots do
  not get into each other's way (`deshredder`).
- The same holds of packets pushed to a deshredder, for slots within its window: the
  batches do not depend on order, repetition, loss or corruption (`run`, `degraded`).
  What was altered is counted as rejected, what was lost as recovered.
- What the scanner in `view` finds in a segment lies back to back, and is what the
  decoder finds there, hashes and signatures included.
- What a capture writer wrote is read back, and well-formed entries decode from what
  they are encoded to.

## What is trusted

Calls into other crates stand behind functions marked `external_body`, each with a
comment that says what is claimed of the call: SHA-256 (`solana_sha256_hasher`), the
Reed-Solomon codec (`reed_solomon_erasure`), entry encoding (`wincode`), hashes and
transactions (`solana_hash`, `solana_transaction`), byte buffers (`bytes`) and bit sets
(`fixedbitset`), and a few functions of the standard library.

What is deliberately not done: leader signature verification (it needs the leader
schedule) and PoH verification. Firewall the port to your provider's source addresses.
