# kv_mvcc

A small key-value server and client, with the request format, the storage
map and the server's decisions verified with Verus.

- `src/bits.rs`: the bit-level view of byte buffers and its lemmas.
- `src/protocol.rs`: `BitCursor`, `BitWriter`, and the request format
  (`write_msg`, `decode_msg`), with the encode/decode round trip.
- `src/order.rs`, `src/kvmap.rs`: an ordered map keyed by text, sorted by the
  keys' UTF-8 bytes.
- `src/store.rs`: the storage contract (`Store`) and the maps behind the two
  backends.
- `src/service.rs`: how the server applies a request and what it answers.
- `src/command.rs`: how the client reads a command line.
- `app/`: the server and client programs, and the concurrent backends.
